//! Command-line tokenizing and textual path handling used to label processes.

use vstd::prelude::*;

use crate::text::{
    append, comps, components, has_prefix, join, join_pieces, lower_seq, nonempty, split_seps,
    starts_with, to_lower,
};

verus! {

/// Tokenizer state after reading `s`: finished tokens, the token being read, and
/// whether a double quote is open.
pub open spec fn tok_state(s: Seq<char>) -> (Seq<Seq<char>>, Seq<char>, bool)
    decreases s.len(),
{
    if s.len() == 0 {
        (Seq::<Seq<char>>::empty(), Seq::<char>::empty(), false)
    } else {
        let st = tok_state(s.drop_last());
        let c = s.last();
        if c == '"' {
            (st.0, st.1, !st.2)
        } else if (c == ' ' || c == '\t') && !st.2 {
            if st.1.len() > 0 {
                (st.0.push(st.1), Seq::<char>::empty(), st.2)
            } else {
                st
            }
        } else {
            (st.0, st.1.push(c), st.2)
        }
    }
}

/// Tokens of a Windows command line: blanks outside double quotes separate tokens,
/// quotes are dropped, empty tokens are not produced.
pub open spec fn tokens(s: Seq<char>) -> Seq<Seq<char>> {
    let st = tok_state(s);
    if st.1.len() > 0 {
        st.0.push(st.1)
    } else {
        st.0
    }
}

pub fn tokenizar_cmdline(cmd: &Vec<char>) -> (r: Vec<Vec<char>>)
    ensures
        r.deep_view() == tokens(cmd@),
{
    let mut toks: Vec<Vec<char>> = Vec::new();
    let mut cur: Vec<char> = Vec::new();
    let mut in_quote = false;
    let mut i: usize = 0;
    assert(cmd@.take(0) =~= Seq::<char>::empty());
    while i < cmd.len()
        invariant
            i <= cmd.len(),
            (toks.deep_view(), cur@, in_quote) == tok_state(cmd@.take(i as int)),
        decreases cmd.len() - i,
    {
        let ghost t1 = cmd@.take(i + 1);
        assert(t1.drop_last() =~= cmd@.take(i as int));
        let c = cmd[i];
        if c == '"' {
            in_quote = !in_quote;
        } else if (c == ' ' || c == '\t') && !in_quote {
            if cur.len() > 0 {
                let ghost before = toks.deep_view();
                assert(cur.deep_view() =~= cur@);
                let piece = cur;
                toks.push(piece);
                assert(toks.deep_view() =~= before.push(piece@));
                cur = Vec::new();
            }
        } else {
            cur.push(c);
        }
        i += 1;
    }
    assert(cmd@.take(cmd.len() as int) =~= cmd@);
    if cur.len() > 0 {
        let ghost before = toks.deep_view();
        assert(cur.deep_view() =~= cur@);
        let last = cur;
        toks.push(last);
        assert(toks.deep_view() =~= before.push(last@));
    }
    toks
}

/// The text after the last `.` of `s` (all of `s` when it has none).
pub open spec fn after_dot(s: Seq<char>) -> Seq<char>
    decreases s.len(),
{
    if s.len() == 0 {
        s
    } else if s.last() == '.' {
        Seq::<char>::empty()
    } else {
        after_dot(s.drop_last()).push(s.last())
    }
}

fn extension(s: &Vec<char>) -> (r: Vec<char>)
    ensures
        r@ == after_dot(s@),
{
    let mut start: usize = s.len();
    assert(s@.take(s.len() as int) =~= s@);
    assert(s@ + s@.subrange(s.len() as int, s.len() as int) =~= s@);
    while start > 0 && s[start - 1] != '.'
        invariant
            start <= s.len(),
            after_dot(s@) == after_dot(s@.take(start as int)) + s@.subrange(
                start as int,
                s.len() as int,
            ),
        decreases start,
    {
        assert(s@.take(start as int).drop_last() =~= s@.take(start - 1));
        assert(after_dot(s@.take(start - 1)).push(s@[start - 1]) + s@.subrange(
            start as int,
            s.len() as int,
        ) =~= after_dot(s@.take(start - 1)) + s@.subrange(start - 1, s.len() as int));
        start -= 1;
    }
    assert(after_dot(s@.take(start as int)) =~= Seq::<char>::empty());
    let mut r: Vec<char> = Vec::new();
    let mut i: usize = start;
    while i < s.len()
        invariant
            start <= i <= s.len(),
            r@ == s@.subrange(start as int, i as int),
        decreases s.len() - i,
    {
        r.push(s[i]);
        i += 1;
        assert(r@ =~= s@.subrange(start as int, i as int));
    }
    assert(after_dot(s@) =~= r@);
    r
}

/// Extensions that reveal the real program run by an interpreter.
pub open spec fn is_script_ext(e: Seq<char>) -> bool {
    e == seq!['j', 's'] || e == seq!['m', 'j', 's'] || e == seq!['c', 'j', 's'] || e == seq![
        't',
        's',
    ] || e == seq!['m', 't', 's'] || e == seq!['c', 't', 's']
}

/// A token names a script: it is not a flag and its extension is a script one.
pub open spec fn is_script(t: Seq<char>) -> bool {
    !has_prefix(t, seq!['-']) && is_script_ext(lower_seq(after_dot(t)))
}

/// The first script among the tokens from index `i` on.
pub open spec fn script_from(toks: Seq<Seq<char>>, i: int) -> Option<Seq<char>>
    decreases toks.len() - i,
{
    if i < 0 || i >= toks.len() {
        None
    } else if is_script(toks[i]) {
        Some(toks[i])
    } else {
        script_from(toks, i + 1)
    }
}

/// The first argument of the command line (the executable skipped) that is a script.
pub open spec fn first_script(cmd: Seq<char>) -> Option<Seq<char>> {
    script_from(tokens(cmd), 1)
}

fn is_script_token(t: &Vec<char>) -> (r: bool)
    ensures
        r == is_script(t@),
{
    let dash: Vec<char> = vec!['-'];
    assert(dash@ =~= seq!['-']);
    if starts_with(t, &dash) {
        return false;
    }
    let e = to_lower(&extension(t));
    let n = e.len();
    let r = (n == 2 && e[0] == 'j' && e[1] == 's')
        || (n == 3 && e[0] == 'm' && e[1] == 'j' && e[2] == 's')
        || (n == 3 && e[0] == 'c' && e[1] == 'j' && e[2] == 's')
        || (n == 2 && e[0] == 't' && e[1] == 's')
        || (n == 3 && e[0] == 'm' && e[1] == 't' && e[2] == 's')
        || (n == 3 && e[0] == 'c' && e[1] == 't' && e[2] == 's');
    proof {
        if n == 2 {
            assert(e@ == seq![e@[0], e@[1]]);
        }
        if n == 3 {
            assert(e@ == seq![e@[0], e@[1], e@[2]]);
        }
    }
    r
}

/// First argument of the command line that looks like a script (known extension),
/// skipping flags and the executable itself.
pub fn primer_script(cmd: &Vec<char>) -> (r: Option<Vec<char>>)
    ensures
        match r {
            Some(s) => first_script(cmd@) == Some(s@),
            None => first_script(cmd@).is_none(),
        },
{
    let toks = tokenizar_cmdline(cmd);
    let ghost tv = toks.deep_view();
    let mut i: usize = 1;
    while i < toks.len()
        invariant
            1 <= i,
            tv == toks.deep_view(),
            tv == tokens(cmd@),
            script_from(tv, 1) == script_from(tv, i as int),
        decreases toks.len() - i,
    {
        assert(tv[i as int] == toks@[i as int]@);
        if is_script_token(&toks[i]) {
            let mut out: Vec<char> = Vec::new();
            append(&mut out, &toks[i]);
            assert(out@ =~= tv[i as int]);
            return Some(out);
        }
        i += 1;
    }
    None
}

/// Components left after resolving `.` and `..` textually, from left to right.
pub open spec fn norm_stack(cs: Seq<Seq<char>>) -> Seq<Seq<char>>
    decreases cs.len(),
{
    if cs.len() == 0 {
        cs
    } else {
        let st = norm_stack(cs.drop_last());
        let c = cs.last();
        if c == seq!['.'] {
            st
        } else if c == seq!['.', '.'] {
            if st.len() > 0 {
                st.drop_last()
            } else {
                st
            }
        } else {
            st.push(c)
        }
    }
}

/// `\\` when the path is a UNC path, nothing otherwise.
pub open spec fn unc_prefix(r: Seq<char>) -> Seq<char> {
    if has_prefix(r, seq!['\\', '\\']) {
        seq!['\\', '\\']
    } else {
        Seq::<char>::empty()
    }
}

/// Textual normalization of a path: `.` and `..` collapsed, separators unified to `\`.
pub open spec fn normalized(r: Seq<char>) -> Seq<char> {
    unc_prefix(r) + join(norm_stack(comps(r)), seq!['\\'])
}

/// Normalizes the path textually (collapses `.` and `..`) without touching the disk.
pub fn normalizar_ruta(ruta: &Vec<char>) -> (r: Vec<char>)
    ensures
        r@ == normalized(ruta@),
{
    let cs = components(ruta);
    let ghost cv = cs.deep_view();
    let mut stack: Vec<Vec<char>> = Vec::new();
    let mut i: usize = 0;
    assert(cv.take(0) =~= Seq::<Seq<char>>::empty());
    while i < cs.len()
        invariant
            i <= cs.len(),
            cv == cs.deep_view(),
            stack.deep_view() == norm_stack(cv.take(i as int)),
        decreases cs.len() - i,
    {
        let ghost t1 = cv.take(i + 1);
        assert(t1.drop_last() =~= cv.take(i as int));
        assert(t1.last() == cs@[i as int]@);
        let c = &cs[i];
        let n = c.len();
        if n == 1 && c[0] == '.' {
            assert(c@ =~= seq!['.']);
        } else if n == 2 && c[0] == '.' && c[1] == '.' {
            assert(c@ =~= seq!['.', '.']);
            if stack.len() > 0 {
                let ghost before = stack.deep_view();
                stack.pop();
                assert(stack.deep_view() =~= before.drop_last());
            }
        } else {
            proof {
                if c@ == seq!['.'] {
                    assert(c@.len() == 1);
                }
                if c@ == seq!['.', '.'] {
                    assert(c@.len() == 2);
                }
            }
            let ghost before = stack.deep_view();
            let mut copy: Vec<char> = Vec::new();
            append(&mut copy, c);
            assert(copy.deep_view() =~= copy@);
            stack.push(copy);
            assert(stack.deep_view() =~= before.push(c@));
        }
        i += 1;
    }
    assert(cv.take(cs.len() as int) =~= cv);
    let sep: Vec<char> = vec!['\\'];
    let unc: Vec<char> = vec!['\\', '\\'];
    let mut out: Vec<char> = Vec::new();
    if starts_with(ruta, &unc) {
        out.push('\\');
        out.push('\\');
    }
    assert(sep@ =~= seq!['\\']);
    assert(unc@ =~= seq!['\\', '\\']);
    let joined = join_pieces(&stack, &sep);
    append(&mut out, &joined);
    assert(out@ =~= normalized(ruta@));
    out
}

/// The path reduced to its last three components after `…\` when it has more.
pub open spec fn shortened(r: Seq<char>) -> Seq<char> {
    let cs = comps(r);
    if cs.len() <= 3 {
        r
    } else {
        seq!['…', '\\'] + join(cs.skip(cs.len() - 3), seq!['\\'])
    }
}

/// Shortens the path to its last 3 components (`…\codex-bridge\bridge\server.js`).
pub fn acortar_ruta(ruta: &Vec<char>) -> (r: Vec<char>)
    ensures
        r@ == shortened(ruta@),
{
    let cs = components(ruta);
    let n = cs.len();
    if n <= 3 {
        let mut out: Vec<char> = Vec::new();
        append(&mut out, ruta);
        assert(out@ =~= ruta@);
        return out;
    }
    let mut last3: Vec<Vec<char>> = Vec::new();
    let mut i: usize = n - 3;
    while i < n
        invariant
            n == cs.len(),
            n > 3,
            n - 3 <= i <= n,
            last3.deep_view() == cs.deep_view().subrange(n - 3, i as int),
        decreases n - i,
    {
        let mut copy: Vec<char> = Vec::new();
        append(&mut copy, &cs[i]);
        let ghost before = last3.deep_view();
        assert(copy.deep_view() =~= copy@);
        assert(copy@ =~= cs@[i as int]@);
        assert(cs.deep_view()[i as int] == cs@[i as int]@);
        last3.push(copy);
        assert(last3.deep_view() =~= before.push(cs@[i as int]@));
        assert(last3.deep_view() =~= cs.deep_view().subrange(n - 3, i + 1));
        i += 1;
    }
    assert(cs.deep_view().subrange(n - 3, n as int) =~= cs.deep_view().skip(n - 3));
    let sep: Vec<char> = vec!['\\'];
    assert(sep@ =~= seq!['\\']);
    let mut out: Vec<char> = vec!['…', '\\'];
    let joined = join_pieces(&last3, &sep);
    append(&mut out, &joined);
    assert(out@ =~= shortened(ruta@));
    out
}

/// Every component left by resolving `.` and `..` is one of the given components, and
/// none is `.` or `..`.
proof fn lemma_norm_stack_items(cs: Seq<Seq<char>>)
    ensures
        forall|i: int|
            0 <= i < norm_stack(cs).len() ==> cs.contains(#[trigger] norm_stack(cs)[i])
                && norm_stack(cs)[i] != seq!['.'] && norm_stack(cs)[i] != seq!['.', '.'],
    decreases cs.len(),
{
    if cs.len() > 0 {
        let pre = cs.drop_last();
        lemma_norm_stack_items(pre);
        let st = norm_stack(pre);
        let out = norm_stack(cs);
        assert forall|i: int| 0 <= i < out.len() implies cs.contains(#[trigger] out[i]) && out[i]
            != seq!['.'] && out[i] != seq!['.', '.'] by {
            if i < st.len() {
                assert(out[i] == st[i]);
                let k = choose|k: int| 0 <= k < pre.len() && pre[k] == st[i];
                assert(cs[k] == pre[k]);
            } else {
                assert(out[i] == cs.last());
                assert(cs[cs.len() - 1] == cs.last());
            }
        }
    }
}

/// Law: the textual normalization of a path leaves no `.` or `..` component and no
/// empty one: only real folder and file names remain.
pub proof fn law_normalized_components(r: Seq<char>)
    ensures
        forall|i: int|
            0 <= i < norm_stack(comps(r)).len() ==> {
                let c = #[trigger] norm_stack(comps(r))[i];
                c.len() > 0 && c != seq!['.'] && c != seq!['.', '.']
            },
{
    let cs = comps(r);
    lemma_norm_stack_items(cs);
    assert forall|i: int| 0 <= i < norm_stack(cs).len() implies (#[trigger] norm_stack(cs)[i]).len()
        > 0 by {
        let c = norm_stack(cs)[i];
        assert(cs.contains(c));
        let k = choose|k: int| 0 <= k < cs.len() && cs[k] == c;
        split_seps(r).lemma_filter_pred(|p: Seq<char>| nonempty(p), k);
    }
}

/// `t` ends with `.` and then `e` in any ASCII case, or is `e` itself in any case.
pub open spec fn ends_with_ext(t: Seq<char>, e: Seq<char>) -> bool {
    let n = t.len();
    let k = e.len();
    (n == k && lower_seq(t) == e) || (n > k && t[n - k - 1] == '.' && lower_seq(t.skip(n - k))
        == e)
}

/// A command-line argument naming a script file run by an interpreter: not a flag,
/// and with one of the JavaScript or TypeScript extensions `js`, `mjs`, `cjs`, `ts`,
/// `mts`, `cts` (any case).
pub open spec fn names_script(t: Seq<char>) -> bool {
    &&& (t.len() == 0 || t[0] != '-')
    &&& {
        ||| ends_with_ext(t, seq!['j', 's'])
        ||| ends_with_ext(t, seq!['m', 'j', 's'])
        ||| ends_with_ext(t, seq!['c', 'j', 's'])
        ||| ends_with_ext(t, seq!['t', 's'])
        ||| ends_with_ext(t, seq!['m', 't', 's'])
        ||| ends_with_ext(t, seq!['c', 't', 's'])
    }
}

/// The text after the last `.` is a suffix of `t` without `.`, preceded by `.` unless
/// it is the whole of `t`.
proof fn lemma_after_dot_shape(t: Seq<char>)
    ensures
        after_dot(t).len() <= t.len(),
        after_dot(t) == t.skip(t.len() - after_dot(t).len()),
        forall|i: int| 0 <= i < after_dot(t).len() ==> after_dot(t)[i] != '.',
        after_dot(t).len() == t.len() || t[t.len() - after_dot(t).len() - 1] == '.',
    decreases t.len(),
{
    if t.len() > 0 && t.last() != '.' {
        let u = t.drop_last();
        lemma_after_dot_shape(u);
        let a = after_dot(u);
        assert(after_dot(t) == a.push(t.last()));
        assert(t.skip(t.len() - after_dot(t).len()) =~= u.skip(u.len() - a.len()).push(t.last()));
        if a.len() < u.len() {
            assert(t[t.len() - after_dot(t).len() - 1] == u[u.len() - a.len() - 1]);
        }
    } else if t.len() > 0 {
        assert(t.skip(t.len() as int) =~= Seq::<char>::empty());
    } else {
        assert(t.skip(0) =~= t);
    }
}

/// ASCII lower-casing leaves `.` where it was and makes no other `.`.
proof fn lemma_lower_dots(x: Seq<char>, i: int)
    requires
        0 <= i < x.len(),
    ensures
        (lower_seq(x)[i] == '.') == (x[i] == '.'),
{
    let c = x[i];
    if 'A' <= c && c <= 'Z' {
        assert(crate::text::lower(c) == ((c as u32) + 32) as char);
    }
}

/// When `e` has no `.`, `t` ends with `.` and `e` exactly when the text after its last
/// `.` is `e`, ignoring case.
proof fn lemma_ends_with_ext(t: Seq<char>, e: Seq<char>)
    requires
        forall|i: int| 0 <= i < e.len() ==> e[i] != '.',
    ensures
        ends_with_ext(t, e) == (lower_seq(after_dot(t)) == e),
{
    lemma_after_dot_shape(t);
    let a = after_dot(t);
    let n = t.len();
    let m = a.len();
    let k = e.len();
    if lower_seq(a) == e {
        assert(m == k);
        if m == n {
            assert(a =~= t);
        }
    }
    if ends_with_ext(t, e) {
        if n == k && lower_seq(t) == e {
            assert forall|i: int| 0 <= i < n implies t[i] != '.' by {
                lemma_lower_dots(t, i);
                assert(lower_seq(t)[i] == e[i]);
            }
            if m < n {
                assert(t[n - m - 1] == '.');
            }
            assert(a =~= t);
        } else {
            let sk = t.skip(n - k);
            assert forall|i: int| 0 <= i < k implies sk[i] != '.' by {
                lemma_lower_dots(sk, i);
                assert(lower_seq(sk)[i] == e[i]);
            }
            if m > k {
                assert(a[m - k - 1] == t[n - k - 1]);
            } else if m < k {
                assert(t[n - m - 1] == '.');
                assert(sk[k - m - 1] == t[n - m - 1]);
            }
            assert(a =~= sk);
        }
    }
}

/// Law: an argument is taken as a script exactly when it is not a flag and ends with
/// one of the extensions `js`, `mjs`, `cjs`, `ts`, `mts`, `cts` in any case (or is one
/// of them).
pub proof fn law_script_arguments(t: Seq<char>)
    ensures
        is_script(t) == names_script(t),
{
    lemma_ends_with_ext(t, seq!['j', 's']);
    lemma_ends_with_ext(t, seq!['m', 'j', 's']);
    lemma_ends_with_ext(t, seq!['c', 'j', 's']);
    lemma_ends_with_ext(t, seq!['t', 's']);
    lemma_ends_with_ext(t, seq!['m', 't', 's']);
    lemma_ends_with_ext(t, seq!['c', 't', 's']);
    if t.len() > 0 {
        assert(has_prefix(t, seq!['-']) == (t[0] == '-')) by {
            assert(t.take(1)[0] == t[0]);
            assert(seq!['-'][0] == '-');
            if t[0] == '-' {
                assert(t.take(1) =~= seq!['-']);
            }
        }
    }
}

/// Law: the script of a command line is its first argument after the executable that
/// names a script file (`names_script`), and there is none when no argument does.
pub proof fn law_first_script_argument(cmd: Seq<char>)
    ensures
        forall|i: int|
            1 <= i < tokens(cmd).len() && names_script(#[trigger] tokens(cmd)[i]) && (forall|j: int|
                1 <= j < i ==> !names_script(#[trigger] tokens(cmd)[j])) ==> first_script(cmd)
                == Some(tokens(cmd)[i]),
        (forall|j: int| 1 <= j < tokens(cmd).len() ==> !names_script(#[trigger] tokens(cmd)[j]))
            ==> first_script(cmd).is_none(),
{
    let toks = tokens(cmd);
    assert forall|j: int| 1 <= j < toks.len() implies is_script(#[trigger] toks[j])
        == names_script(toks[j]) by {
        law_script_arguments(toks[j]);
    }
    assert forall|i: int|
        1 <= i < toks.len() && names_script(#[trigger] toks[i]) && (forall|j: int|
            1 <= j < i ==> !names_script(#[trigger] toks[j])) implies first_script(cmd) == Some(
        toks[i],
    ) by {
        lemma_script_from_first(toks, 1, i);
    }
    if forall|j: int| 1 <= j < toks.len() ==> !names_script(#[trigger] toks[j]) {
        lemma_script_from_none(toks, 1);
    }
}

proof fn lemma_script_from_first(toks: Seq<Seq<char>>, k: int, i: int)
    requires
        1 <= k <= i < toks.len(),
        is_script(toks[i]),
        forall|j: int| k <= j < i ==> !is_script(#[trigger] toks[j]),
    ensures
        script_from(toks, k) == Some(toks[i]),
    decreases i - k,
{
    if k < i {
        lemma_script_from_first(toks, k + 1, i);
    }
}

proof fn lemma_script_from_none(toks: Seq<Seq<char>>, k: int)
    requires
        1 <= k,
        forall|j: int| k <= j < toks.len() ==> !is_script(#[trigger] toks[j]),
    ensures
        script_from(toks, k).is_none(),
    decreases toks.len() - k,
{
    if k < toks.len() {
        lemma_script_from_none(toks, k + 1);
    }
}

} // verus!
