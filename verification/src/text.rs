//! Character-level text helpers shared by the labelling, parsing and formatting code.

use vstd::prelude::*;

verus! {

/// Appends one character to a `String` (`String::push`).
#[verifier::external_body]
pub(crate) fn push_char(s: &mut String, c: char)
    ensures
        final(s)@ == old(s)@.push(c),
{
    s.push(c);
}

/// The characters of a string slice, in order.
pub fn chars_of(s: &str) -> (r: Vec<char>)
    ensures
        r@ == s@,
{
    let mut r: Vec<char> = Vec::new();
    for c in it: s.chars()
        invariant
            r@ == it.seq().take(it.index() as int),
            it.seq() == s@,
    {
        r.push(c);
    }
    r
}

/// A `String` holding exactly the given characters.
pub fn string_of(cs: &Vec<char>) -> (s: String)
    ensures
        s@ == cs@,
{
    let mut s = String::new();
    let mut i: usize = 0;
    while i < cs.len()
        invariant
            i <= cs.len(),
            s@ == cs@.take(i as int),
        decreases cs.len() - i,
    {
        push_char(&mut s, cs[i]);
        assert(cs@.take(i + 1) == cs@.take(i as int).push(cs@[i as int]));
        i += 1;
    }
    assert(cs@.take(cs.len() as int) == cs@);
    s
}

} // verus!

verus! {

/// Path separators accepted in process paths and command lines.
pub open spec fn is_sep(c: char) -> bool {
    c == '\\' || c == '/'
}

/// The pieces of `s` between separators, empty pieces included (as `str::split`).
pub open spec fn split_seps(s: Seq<char>) -> Seq<Seq<char>>
    decreases s.len(),
{
    if s.len() == 0 {
        seq![Seq::<char>::empty()]
    } else {
        let p = split_seps(s.drop_last());
        if is_sep(s.last()) {
            p.push(Seq::<char>::empty())
        } else {
            p.update(p.len() - 1, p.last().push(s.last()))
        }
    }
}

pub open spec fn nonempty(p: Seq<char>) -> bool {
    p.len() > 0
}

/// The non-empty path components of `s`.
pub open spec fn comps(s: Seq<char>) -> Seq<Seq<char>> {
    split_seps(s).filter(|p: Seq<char>| nonempty(p))
}

pub proof fn lemma_split_nonempty(s: Seq<char>)
    ensures
        split_seps(s).len() >= 1,
    decreases s.len(),
{
    if s.len() > 0 {
        lemma_split_nonempty(s.drop_last());
    }
}

/// The non-empty components of `s`, split at `\` and `/`.
pub fn components(s: &Vec<char>) -> (r: Vec<Vec<char>>)
    ensures
        r.deep_view() == comps(s@),
{
    let mut done: Vec<Vec<char>> = Vec::new();
    let mut cur: Vec<char> = Vec::new();
    let mut i: usize = 0;
    proof {
        assert(s@.take(0) == Seq::<char>::empty());
        reveal_with_fuel(Seq::filter, 2);
    }
    while i < s.len()
        invariant
            i <= s.len(),
            split_seps(s@.take(i as int)).len() >= 1,
            cur@ == split_seps(s@.take(i as int)).last(),
            done.deep_view() == split_seps(s@.take(i as int)).drop_last().filter(
                |p: Seq<char>| nonempty(p),
            ),
        decreases s.len() - i,
    {
        let ghost t = s@.take(i as int);
        let ghost t1 = s@.take(i + 1);
        proof {
            assert(t1.drop_last() == t);
            assert(t1.last() == s@[i as int]);
            lemma_split_nonempty(t);
        }
        let c = s[i];
        if c == '\\' || c == '/' {
            let ghost p = split_seps(t);
            if cur.len() > 0 {
                let ghost old_done = done.deep_view();
                assert(cur.deep_view() =~= cur@);
                let piece = cur;
                done.push(piece);
                proof {
                    assert(done.deep_view() =~= old_done.push(p.last()));
                    assert(p.drop_last().push(p.last()) == p);
                }
            } else {
                proof {
                    assert(p.drop_last().push(p.last()) == p);
                }
            }
            cur = Vec::new();
            proof {
                assert(split_seps(t1) == p.push(Seq::<char>::empty()));
                assert(split_seps(t1).drop_last() == p);
                reveal_with_fuel(Seq::filter, 1);
            }
        } else {
            let ghost p = split_seps(t);
            cur.push(c);
            proof {
                assert(split_seps(t1) == p.update(p.len() - 1, p.last().push(c)));
                assert(split_seps(t1).drop_last() == p.drop_last());
            }
        }
        i += 1;
    }
    proof {
        assert(s@.take(s.len() as int) == s@);
        lemma_split_nonempty(s@);
        let p = split_seps(s@);
        assert(p.drop_last().push(p.last()) == p);
        reveal_with_fuel(Seq::filter, 1);
    }
    let ghost old_done = done.deep_view();
    if cur.len() > 0 {
        assert(cur.deep_view() =~= cur@);
        done.push(cur);
        assert(done.deep_view() =~= old_done.push(split_seps(s@).last()));
    }
    done
}

} // verus!

verus! {

/// ASCII lower-casing of one character (`char::to_ascii_lowercase`).
pub open spec fn lower(c: char) -> char {
    if 'A' <= c && c <= 'Z' {
        ((c as u32) + 32) as char
    } else {
        c
    }
}

/// ASCII lower-casing of a whole text (`str::to_ascii_lowercase`).
pub open spec fn lower_seq(s: Seq<char>) -> Seq<char> {
    s.map_values(|c: char| lower(c))
}

/// ASCII case-insensitive equality (`str::eq_ignore_ascii_case`).
pub open spec fn ieq(a: Seq<char>, b: Seq<char>) -> bool {
    lower_seq(a) == lower_seq(b)
}

pub fn lower_char(c: char) -> (r: char)
    ensures
        r == lower(c),
{
    if 'A' <= c && c <= 'Z' {
        let v: u32 = (c as u32) + 32;
        let b: u8 = v as u8;
        b as char
    } else {
        c
    }
}

/// ASCII lower-cased copy of `s`.
pub fn to_lower(s: &Vec<char>) -> (r: Vec<char>)
    ensures
        r@ == lower_seq(s@),
{
    let mut r: Vec<char> = Vec::new();
    let mut i: usize = 0;
    while i < s.len()
        invariant
            i <= s.len(),
            r@ == lower_seq(s@.take(i as int)),
        decreases s.len() - i,
    {
        r.push(lower_char(s[i]));
        i += 1;
        assert(lower_seq(s@.take(i as int)) =~= lower_seq(s@.take(i - 1)).push(lower(s@[i - 1])));
    }
    assert(s@.take(s.len() as int) == s@);
    r
}

/// Exact equality of two character sequences.
pub fn same_chars(a: &Vec<char>, b: &Vec<char>) -> (r: bool)
    ensures
        r == (a@ == b@),
{
    if a.len() != b.len() {
        return false;
    }
    let mut i: usize = 0;
    while i < a.len()
        invariant
            i <= a.len(),
            a.len() == b.len(),
            forall|k: int| 0 <= k < i ==> a@[k] == b@[k],
        decreases a.len() - i,
    {
        if a[i] != b[i] {
            return false;
        }
        i += 1;
    }
    assert(a@ =~= b@);
    true
}

/// ASCII case-insensitive equality of two character sequences.
pub fn eq_ignore_ascii_case(a: &Vec<char>, b: &Vec<char>) -> (r: bool)
    ensures
        r == ieq(a@, b@),
{
    if a.len() != b.len() {
        assert(lower_seq(a@).len() != lower_seq(b@).len());
        return false;
    }
    let mut i: usize = 0;
    while i < a.len()
        invariant
            i <= a.len(),
            a.len() == b.len(),
            forall|k: int| 0 <= k < i ==> lower(a@[k]) == lower(b@[k]),
        decreases a.len() - i,
    {
        if lower_char(a[i]) != lower_char(b[i]) {
            assert(lower_seq(a@)[i as int] != lower_seq(b@)[i as int]);
            return false;
        }
        i += 1;
    }
    assert(lower_seq(a@) =~= lower_seq(b@));
    true
}

/// `s` begins with `p`.
pub open spec fn has_prefix(s: Seq<char>, p: Seq<char>) -> bool {
    p.len() <= s.len() && s.take(p.len() as int) == p
}

pub fn starts_with(s: &Vec<char>, p: &Vec<char>) -> (r: bool)
    ensures
        r == has_prefix(s@, p@),
{
    if p.len() > s.len() {
        return false;
    }
    let mut i: usize = 0;
    while i < p.len()
        invariant
            i <= p.len(),
            p.len() <= s.len(),
            forall|k: int| 0 <= k < i ==> s@[k] == p@[k],
        decreases p.len() - i,
    {
        if s[i] != p[i] {
            assert(s@.take(p.len() as int)[i as int] != p@[i as int]);
            return false;
        }
        i += 1;
    }
    assert(s@.take(p.len() as int) =~= p@);
    true
}

/// `s` without every trailing occurrence of `c` (`str::trim_end_matches(c)`).
pub open spec fn trim_end(s: Seq<char>, c: char) -> Seq<char>
    decreases s.len(),
{
    if s.len() > 0 && s.last() == c {
        trim_end(s.drop_last(), c)
    } else {
        s
    }
}

pub fn trim_end_char(s: &Vec<char>, c: char) -> (r: Vec<char>)
    ensures
        r@ == trim_end(s@, c),
{
    let mut n: usize = s.len();
    assert(s@.take(s.len() as int) == s@);
    while n > 0 && s[n - 1] == c
        invariant
            n <= s.len(),
            trim_end(s@.take(n as int), c) == trim_end(s@, c),
        decreases n,
    {
        assert(s@.take(n as int).drop_last() == s@.take(n - 1));
        n -= 1;
    }
    proof {
        assert(s@.take(s.len() as int) == s@);
    }
    let mut r: Vec<char> = Vec::new();
    let mut i: usize = 0;
    while i < n
        invariant
            i <= n <= s.len(),
            r@ == s@.take(i as int),
        decreases n - i,
    {
        r.push(s[i]);
        i += 1;
        assert(r@ =~= s@.take(i as int));
    }
    r
}

/// The text after the last separator of `s` (the first item of `rsplit`), where
/// `both` selects `\` and `/` as separators and otherwise only `\`.
pub open spec fn tail_after(s: Seq<char>, both: bool) -> Seq<char>
    decreases s.len(),
{
    if s.len() == 0 {
        s
    } else if s.last() == '\\' || (both && s.last() == '/') {
        Seq::<char>::empty()
    } else {
        tail_after(s.drop_last(), both).push(s.last())
    }
}

pub fn last_piece(s: &Vec<char>, both: bool) -> (r: Vec<char>)
    ensures
        r@ == tail_after(s@, both),
{
    let mut start: usize = s.len();
    assert(s@.take(s.len() as int) == s@);
    assert(s@.subrange(s.len() as int, s.len() as int) =~= Seq::<char>::empty());
    assert(s@ + Seq::<char>::empty() =~= s@);
    while start > 0 && !(s[start - 1] == '\\' || (both && s[start - 1] == '/'))
        invariant
            start <= s.len(),
            tail_after(s@, both) == tail_after(s@.take(start as int), both) + s@.subrange(start as int, s.len() as int),
        decreases start,
    {
        let ghost t = s@.take(start as int);
        assert(t.drop_last() == s@.take(start - 1));
        assert(s@.subrange(start - 1, s.len() as int) =~= seq![s@[start - 1]] + s@.subrange(start as int, s.len() as int));
        assert(tail_after(s@.take(start - 1), both) + s@.subrange(start - 1, s.len() as int) =~= tail_after(s@.take(start - 1), both).push(s@[start - 1]) + s@.subrange(start as int, s.len() as int));
        start -= 1;
    }
    proof {
        assert(s@.take(s.len() as int) == s@);
        assert(s@.subrange(s.len() as int, s.len() as int) =~= Seq::<char>::empty());
        if start > 0 {
            assert(s@.take(start as int).last() == s@[start - 1]);
        }
        assert(tail_after(s@.take(start as int), both) =~= Seq::<char>::empty());
    }
    let mut r: Vec<char> = Vec::new();
    let mut i: usize = start;
    while i < s.len()
        invariant
            start <= i <= s.len(),
            r@ == s@.subrange(start as int, i as int),
        decreases s.len() - i,
    {
        r.push(s[i]);
        i += 1;
        assert(r@ =~= s@.subrange(start as int, i as int));
    }
    assert(tail_after(s@, both) =~= s@.subrange(start as int, s.len() as int));
    r
}

} // verus!

verus! {

/// The digit character for `d` in bases up to 16 (lower-case letters above 9).
pub open spec fn digit(d: nat) -> char {
    if d < 10 {
        ((d + 48) as u32) as char
    } else {
        ((d + 87) as u32) as char
    }
}

/// Positional notation of `n` in base `b`, without leading zeros (`format!("{n}")`
/// for base 10, `format!("{n:x}")` for base 16).
pub open spec fn radix(n: nat, b: nat) -> Seq<char>
    recommends
        b >= 2,
    decreases n,
    when b >= 2
{
    if n < b {
        seq![digit(n)]
    } else {
        proof {
            assert(n / b < n) by (nonlinear_arith)
                requires
                    n >= b,
                    b >= 2,
            ;
        }
        radix(n / b, b).push(digit(n % b))
    }
}

pub open spec fn dec(n: nat) -> Seq<char> {
    radix(n, 10)
}

pub open spec fn hex(n: nat) -> Seq<char> {
    radix(n, 16)
}

fn digit_char(d: u64) -> (c: char)
    requires
        d < 16,
    ensures
        c == digit(d as nat),
{
    if d < 10 {
        let b: u8 = (d as u8) + 48;
        b as char
    } else {
        let b: u8 = (d as u8) + 87;
        b as char
    }
}

/// Appends the base-`b` notation of `n` to `out`.
pub fn push_radix(out: &mut Vec<char>, n: u64, b: u64)
    requires
        2 <= b <= 16,
    ensures
        final(out)@ == old(out)@ + radix(n as nat, b as nat),
    decreases n,
{
    if n < b {
        out.push(digit_char(n));
        assert(radix(n as nat, b as nat) == seq![digit(n as nat)]);
    } else {
        assert(n / b < n) by (nonlinear_arith)
            requires
                n >= b,
                b >= 2,
        ;
        push_radix(out, n / b, b);
        out.push(digit_char(n % b));
        assert(radix(n as nat, b as nat) == radix((n / b) as nat, b as nat).push(digit((n % b) as nat)));
    }
}

/// Appends all of `x` to `out`.
pub fn append(out: &mut Vec<char>, x: &Vec<char>)
    ensures
        final(out)@ == old(out)@ + x@,
{
    let ghost start = out@;
    let mut i: usize = 0;
    while i < x.len()
        invariant
            i <= x.len(),
            out@ == start + x@.take(i as int),
        decreases x.len() - i,
    {
        out.push(x[i]);
        i += 1;
        assert(out@ =~= start + x@.take(i as int));
    }
    assert(x@.take(x.len() as int) == x@);
}

/// `parts` joined with `sep` between consecutive parts (`[T]::join`).
pub open spec fn join(parts: Seq<Seq<char>>, sep: Seq<char>) -> Seq<char>
    decreases parts.len(),
{
    if parts.len() == 0 {
        Seq::<char>::empty()
    } else if parts.len() == 1 {
        parts[0]
    } else {
        join(parts.drop_last(), sep) + sep + parts.last()
    }
}

pub fn join_pieces(parts: &Vec<Vec<char>>, sep: &Vec<char>) -> (r: Vec<char>)
    ensures
        r@ == join(parts.deep_view(), sep@),
{
    let mut r: Vec<char> = Vec::new();
    let mut i: usize = 0;
    while i < parts.len()
        invariant
            i <= parts.len(),
            r@ == join(parts.deep_view().take(i as int), sep@),
        decreases parts.len() - i,
    {
        let ghost before = r@;
        let ghost dv = parts.deep_view();
        assert(dv[i as int] == parts@[i as int]@);
        if i > 0 {
            append(&mut r, sep);
        }
        append(&mut r, &parts[i]);
        i += 1;
        proof {
            let t = dv.take(i as int);
            assert(t.drop_last() =~= dv.take(i - 1));
            if i == 1 {
                assert(before =~= Seq::<char>::empty());
                assert(r@ =~= t[0]);
            } else {
                assert(r@ =~= join(t.drop_last(), sep@) + sep@ + t.last());
            }
        }
    }
    assert(parts.deep_view().take(parts.len() as int) =~= parts.deep_view());
    r
}

} // verus!

verus! {

/// Lexicographic order of texts by code point; for UTF-8 text it is the byte order
/// used by `String`'s `Ord`.
pub open spec fn chars_lt(a: Seq<char>, b: Seq<char>) -> bool
    decreases a.len(),
{
    if a.len() == 0 {
        b.len() > 0
    } else if b.len() == 0 {
        false
    } else if a[0] != b[0] {
        a[0] < b[0]
    } else {
        chars_lt(a.drop_first(), b.drop_first())
    }
}

pub proof fn lemma_chars_lt_transitive(a: Seq<char>, b: Seq<char>, c: Seq<char>)
    requires
        chars_lt(a, b),
        chars_lt(b, c),
    ensures
        chars_lt(a, c),
    decreases a.len(),
{
    if a.len() > 0 && b.len() > 0 && c.len() > 0 && a[0] == b[0] && b[0] == c[0] {
        lemma_chars_lt_transitive(a.drop_first(), b.drop_first(), c.drop_first());
    }
}

pub proof fn lemma_chars_lt_total(a: Seq<char>, b: Seq<char>)
    ensures
        a == b || chars_lt(a, b) || chars_lt(b, a),
    decreases a.len(),
{
    if a.len() > 0 && b.len() > 0 {
        if a[0] == b[0] {
            lemma_chars_lt_total(a.drop_first(), b.drop_first());
            if a.drop_first() == b.drop_first() {
                assert(a =~= seq![a[0]] + a.drop_first());
                assert(b =~= seq![b[0]] + b.drop_first());
            }
        }
    } else if a.len() == 0 && b.len() == 0 {
        assert(a =~= b);
    }
}

/// `a` sorts strictly before `b`.
pub fn less_chars(a: &Vec<char>, b: &Vec<char>) -> (r: bool)
    ensures
        r == chars_lt(a@, b@),
{
    let mut i: usize = 0;
    assert(a@.skip(0) =~= a@);
    assert(b@.skip(0) =~= b@);
    while i < a.len() && i < b.len()
        invariant
            i <= a.len(),
            i <= b.len(),
            chars_lt(a@, b@) == chars_lt(a@.skip(i as int), b@.skip(i as int)),
        decreases a.len() - i,
    {
        assert(a@.skip(i as int)[0] == a@[i as int]);
        assert(b@.skip(i as int)[0] == b@[i as int]);
        if a[i] != b[i] {
            return a[i] < b[i];
        }
        assert(a@.skip(i as int).drop_first() =~= a@.skip(i + 1));
        assert(b@.skip(i as int).drop_first() =~= b@.skip(i + 1));
        i += 1;
    }
    i == a.len() && i < b.len()
}

} // verus!
