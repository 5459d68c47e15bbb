//! Decoding of the raw socket fields of the system TCP tables: ports in network
//! byte order, IPv4 addresses as stored by the stack and IPv6 addresses as bytes.

use vstd::prelude::*;

use crate::text::{append, dec, hex, join, join_pieces, push_radix};

verus! {

/// The port number held in network byte order in the low 16 bits of `raw`.
pub open spec fn port_of(raw: u32) -> u16 {
    ((raw % 256) * 256 + (raw / 256) % 256) as u16
}

/// Port stored in network byte order inside a `u32` (low two bytes swapped).
pub fn decode_port(raw: u32) -> (p: u16)
    ensures
        p == port_of(raw),
{
    let lo: u32 = raw % 256;
    let hi: u32 = (raw / 256) % 256;
    (lo * 256 + hi) as u16
}

/// Law: a port stored in network byte order (its high byte first in memory) decodes to
/// itself, whatever the two upper bytes of the field hold.
pub proof fn law_port_round_trip(p: u16, upper: u32)
    requires
        upper < 65536,
    ensures
        port_of((upper * 65536 + (p % 256) * 256 + p / 256) as u32) == p,
{
    let raw = upper * 65536 + (p % 256) * 256 + p / 256;
    assert(raw % 256 == p / 256 && (raw / 256) % 256 == p % 256) by (nonlinear_arith)
        requires
            raw == upper * 65536 + (p % 256) * 256 + p / 256,
            0 <= p < 65536,
            0 <= upper < 65536,
    ;
    assert((p / 256) * 256 + p % 256 == p);
}

/// The four bytes of `raw` in memory order on a little-endian machine.
pub open spec fn octet(raw: u32, k: nat) -> nat {
    if k == 0 {
        (raw % 256) as nat
    } else if k == 1 {
        ((raw / 256) % 256) as nat
    } else if k == 2 {
        ((raw / 65536) % 256) as nat
    } else {
        (raw / 16777216) as nat
    }
}

/// Dotted-quad text of an IPv4 address stored as the stack stores it (first octet in
/// the low byte).
pub open spec fn ipv4_text(raw: u32) -> Seq<char> {
    dec(octet(raw, 0)) + seq!['.'] + dec(octet(raw, 1)) + seq!['.'] + dec(octet(raw, 2))
        + seq!['.'] + dec(octet(raw, 3))
}

pub fn ipv4_to_string(raw: u32) -> (s: String)
    ensures
        s@ == ipv4_text(raw),
{
    let mut out: Vec<char> = Vec::new();
    push_radix(&mut out, (raw % 256) as u64, 10);
    out.push('.');
    push_radix(&mut out, ((raw / 256) % 256) as u64, 10);
    out.push('.');
    push_radix(&mut out, ((raw / 65536) % 256) as u64, 10);
    out.push('.');
    push_radix(&mut out, (raw / 16777216) as u64, 10);
    assert(out@ =~= ipv4_text(raw));
    crate::text::string_of(&out)
}

/// The eight 16-bit groups of an IPv6 address given as 16 bytes (big-endian pairs).
pub open spec fn groups(a: Seq<u8>) -> Seq<nat> {
    Seq::new(8, |k: int| (a[2 * k] as nat) * 256 + (a[2 * k + 1] as nat))
}

/// Length of the run of zero groups starting at `i`.
pub open spec fn zero_run(g: Seq<nat>, i: int) -> nat
    decreases g.len() - i,
{
    if 0 <= i < g.len() && g[i] == 0 {
        1 + zero_run(g, i + 1)
    } else {
        0
    }
}

/// Start and length of the first longest run of at least two zero groups among the
/// runs that start before `k` (length 0 when there is none): a lone zero group is
/// written as `0`, not compressed.
pub open spec fn best_run(g: Seq<nat>, k: int) -> (int, nat)
    decreases k,
{
    if k <= 0 {
        (0, 0)
    } else {
        let b = best_run(g, k - 1);
        let z = zero_run(g, k - 1);
        if z >= 2 && z > b.1 {
            (k - 1, z)
        } else {
            b
        }
    }
}

pub open spec fn hex_groups(g: Seq<nat>) -> Seq<Seq<char>> {
    g.map_values(|x: nat| hex(x))
}

/// Bracketed text of an IPv6 address: lower-case hex groups without leading zeros,
/// the first longest run of two or more zero groups written as `::`.
pub open spec fn ipv6_text(a: Seq<u8>) -> Seq<char> {
    let g = groups(a);
    let b = best_run(g, 8);
    let h = hex_groups(g);
    if b.1 == 0 {
        seq!['['] + join(h, seq![':']) + seq![']']
    } else {
        seq!['['] + join(h.take(b.0), seq![':']) + seq![':', ':'] + join(
            h.skip(b.0 + b.1 as int),
            seq![':'],
        ) + seq![']']
    }
}

proof fn lemma_zero_run_bound(g: Seq<nat>, i: int)
    requires
        0 <= i <= g.len(),
    ensures
        i + zero_run(g, i) <= g.len(),
    decreases g.len() - i,
{
    if i < g.len() && g[i] == 0 {
        lemma_zero_run_bound(g, i + 1);
    }
}

proof fn lemma_best_run_bound(g: Seq<nat>, k: int)
    requires
        0 <= k <= g.len(),
    ensures
        0 <= best_run(g, k).0,
        best_run(g, k).0 + best_run(g, k).1 <= g.len(),
    decreases k,
{
    if k > 0 {
        lemma_best_run_bound(g, k - 1);
        lemma_zero_run_bound(g, k - 1);
    }
}

/// Hex texts of the groups `lo..hi`.
fn hex_range(g: &Vec<u64>, lo: usize, hi: usize) -> (r: Vec<Vec<char>>)
    requires
        lo <= hi <= g.len(),
    ensures
        r.deep_view() == Seq::new(
            (hi - lo) as nat,
            |k: int| hex(g@[lo + k] as nat),
        ),
{
    let mut r: Vec<Vec<char>> = Vec::new();
    let mut i: usize = lo;
    while i < hi
        invariant
            lo <= i <= hi <= g.len(),
            r.deep_view() == Seq::new((i - lo) as nat, |k: int| hex(g@[lo + k] as nat)),
        decreases hi - i,
    {
        let mut h: Vec<char> = Vec::new();
        push_radix(&mut h, g[i], 16);
        let ghost before = r.deep_view();
        assert(h@ =~= hex(g@[i as int] as nat));
        assert(h.deep_view() =~= h@);
        r.push(h);
        assert(r.deep_view() =~= before.push(hex(g@[i as int] as nat)));
        i += 1;
        assert(r.deep_view() =~= Seq::new((i - lo) as nat, |k: int| hex(g@[lo + k] as nat)));
    }
    r
}

pub fn ipv6_to_string(addr: &[u8; 16]) -> (s: String)
    ensures
        s@ == ipv6_text(addr@),
{
    let ghost a = addr@;
    let mut g: Vec<u64> = Vec::new();
    let mut k: usize = 0;
    while k < 8
        invariant
            k <= 8,
            a == addr@,
            a.len() == 16,
            g@.len() == k,
            forall|j: int| 0 <= j < k ==> g@[j] as nat == groups(a)[j],
        decreases 8 - k,
    {
        let hi = addr[2 * k] as u64;
        let lo = addr[2 * k + 1] as u64;
        g.push(hi * 256 + lo);
        k += 1;
    }
    let ghost gs = groups(a);
    assert(g@.len() == 8);
    assert forall|j: int| 0 <= j < 8 implies g@[j] as nat == gs[j] by {}
    // First longest run of zero groups.
    let mut best_start: usize = 0;
    let mut best_len: usize = 0;
    let mut i: usize = 0;
    while i < 8
        invariant
            i <= 8,
            g@.len() == 8,
            gs.len() == 8,
            forall|j: int| 0 <= j < 8 ==> g@[j] as nat == gs[j],
            (best_start as int, best_len as nat) == best_run(gs, i as int),
        decreases 8 - i,
    {
        let mut j: usize = i;
        while j < 8 && g[j] == 0
            invariant
                i <= j <= 8,
                g@.len() == 8,
                gs.len() == 8,
                forall|m: int| 0 <= m < 8 ==> g@[m] as nat == gs[m],
                zero_run(gs, i as int) == (j - i) + zero_run(gs, j as int),
            decreases 8 - j,
        {
            j += 1;
        }
        let run = j - i;
        assert(zero_run(gs, j as int) == 0);
        if run >= 2 && run > best_len {
            best_start = i;
            best_len = run;
        }
        i += 1;
    }
    proof {
        lemma_best_run_bound(gs, 8);
    }
    let ghost h = hex_groups(gs);
    let mut out: Vec<char> = Vec::new();
    out.push('[');
    let colon: Vec<char> = vec![':'];
    if best_len == 0 {
        let all = hex_range(&g, 0, 8);
        assert(all.deep_view() =~= h);
        let joined = join_pieces(&all, &colon);
        append(&mut out, &joined);
    } else {
        let pre = hex_range(&g, 0, best_start);
        assert(pre.deep_view() =~= h.take(best_start as int));
        let joined = join_pieces(&pre, &colon);
        append(&mut out, &joined);
        out.push(':');
        out.push(':');
        let post = hex_range(&g, best_start + best_len, 8);
        assert(post.deep_view() =~= h.skip(best_start + best_len));
        let joined2 = join_pieces(&post, &colon);
        append(&mut out, &joined2);
    }
    out.push(']');
    assert(colon@ == seq![':']);
    assert(out@ =~= ipv6_text(a));
    crate::text::string_of(&out)
}

/// A lower-case hexadecimal digit.
pub open spec fn is_hex_digit(c: char) -> bool {
    ('0' <= c && c <= '9') || ('a' <= c && c <= 'f')
}

/// Value of a string of lower-case hexadecimal digits.
pub open spec fn hex_value(s: Seq<char>) -> nat
    decreases s.len(),
{
    if s.len() == 0 {
        0
    } else {
        let c = s.last();
        let d: nat = if c <= '9' {
            ((c as u32) - 48) as nat
        } else {
            ((c as u32) - 87) as nat
        };
        hex_value(s.drop_last()) * 16 + d
    }
}

/// The hexadecimal text of `n` is made of lower-case digits, has no leading zero, and
/// reads back as `n`.
proof fn lemma_hex_reads_back(n: nat)
    ensures
        hex(n).len() > 0,
        forall|i: int| 0 <= i < hex(n).len() ==> is_hex_digit(#[trigger] hex(n)[i]),
        hex_value(hex(n)) == n,
        n > 0 ==> hex(n)[0] != '0',
    decreases n,
{
    let c = crate::text::digit(n % 16);
    if n % 16 < 10 {
        assert((c as u32) == n % 16 + 48);
    } else {
        assert((c as u32) == n % 16 + 87);
    }
    let d: nat = if c <= '9' {
        ((c as u32) - 48) as nat
    } else {
        ((c as u32) - 87) as nat
    };
    assert(d == n % 16);
    if n >= 16 {
        lemma_hex_reads_back(n / 16);
        let p = hex(n / 16);
        let h = hex(n);
        assert(h == p.push(c));
        assert(h.drop_last() =~= p);
        assert forall|i: int| 0 <= i < h.len() implies is_hex_digit(#[trigger] h[i]) by {
            if i < p.len() {
                assert(h[i] == p[i]);
            }
        }
        assert(h[0] == p[0]);
        assert(h.last() == c);
        assert(hex_value(h) == hex_value(p) * 16 + d);
        assert(n == (n / 16) * 16 + n % 16);
    } else {
        assert(hex(n) == seq![c]);
        assert(hex(n).drop_last() =~= Seq::<char>::empty());
        assert(n % 16 == n);
        assert(hex_value(hex(n)) == hex_value(Seq::<char>::empty()) * 16 + d);
    }
}

/// Every group of a run of zero groups is zero.
proof fn lemma_zero_run_zeros(g: Seq<nat>, i: int)
    requires
        0 <= i <= g.len(),
    ensures
        forall|j: int| i <= j < i + zero_run(g, i) ==> g[j] == 0,
    decreases g.len() - i,
{
    if i < g.len() && g[i] == 0 {
        lemma_zero_run_zeros(g, i + 1);
    }
}

/// The chosen run is either none (start 0, length 0) or a whole run of at least two
/// zero groups starting before `k`.
proof fn lemma_best_run_shape(g: Seq<nat>, k: int)
    requires
        0 <= k <= g.len(),
    ensures
        (best_run(g, k).0 == 0 && best_run(g, k).1 == 0) || (best_run(g, k).1 >= 2 && 0
            <= best_run(g, k).0 < k && best_run(g, k).1 == zero_run(g, best_run(g, k).0)),
    decreases k,
{
    if k > 0 {
        lemma_best_run_shape(g, k - 1);
    }
}

/// Law: the text of an IPv6 address gives the address back. Each group is written in
/// lower-case hexadecimal without leading zeros and reads back as the group; the part
/// written as `::` is a run of at least two zero groups, so putting those zero groups
/// back between the groups written before and after it gives all eight groups.
pub proof fn law_ipv6_text_reads_back(a: Seq<u8>)
    requires
        a.len() == 16,
    ensures
        ({
            let g = groups(a);
            let b = best_run(g, 8);
            &&& b.1 == 0 || (b.1 >= 2 && 0 <= b.0 && b.0 + b.1 <= 8 && forall|i: int|
                b.0 <= i < b.0 + b.1 ==> g[i] == 0)
            &&& g.take(b.0) + Seq::new(b.1, |i: int| 0nat) + g.skip(b.0 + b.1) == g
            &&& forall|i: int|
                0 <= i < 8 ==> hex_value(#[trigger] hex(g[i])) == g[i] && (g[i] > 0 ==> hex(
                    g[i],
                )[0] != '0') && forall|j: int|
                    0 <= j < hex(g[i]).len() ==> is_hex_digit(#[trigger] hex(g[i])[j])
        }),
{
    let g = groups(a);
    lemma_best_run_shape(g, 8);
    lemma_best_run_bound(g, 8);
    let b = best_run(g, 8);
    if b.1 > 0 {
        lemma_zero_run_zeros(g, b.0);
    }
    let r = g.take(b.0) + Seq::new(b.1, |i: int| 0nat) + g.skip(b.0 + b.1);
    assert forall|i: int| 0 <= i < 8 implies r[i] == g[i] by {
        if b.0 <= i < b.0 + b.1 {
            assert(g[i] == 0);
        }
    }
    assert(r =~= g);
    assert forall|i: int| 0 <= i < 8 implies hex_value(#[trigger] hex(g[i])) == g[i] && (g[i]
        > 0 ==> hex(g[i])[0] != '0') && forall|j: int|
        0 <= j < hex(g[i]).len() ==> is_hex_digit(#[trigger] hex(g[i])[j]) by {
        lemma_hex_reads_back(g[i]);
    }
}

} // verus!
