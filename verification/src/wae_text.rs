//! What the parser of the language with bindings makes of well-formed
//! texts: the text of every expression written with single spaces parses
//! back to that expression, with or without a trailing line break.
use crate::ae::{is_line, is_literal, placed};
use crate::text::{bytes_of, law_ascii_slice};
use crate::wae::{
    is_letter, is_num_byte, is_num_char, minus_before, num_run_end, s_index, spec_parse,
    start_index, wae_scan, wae_scan_upto, wae_step, with_bytes, WaeScan, WaeV,
};
use vstd::prelude::*;
use vstd::utf8::*;

verus! {

/// `{with {x v} b}`.
pub open spec fn with_text(x: char, v: Seq<char>, b: Seq<char>) -> Seq<char> {
    seq!['{', 'w', 'i', 't', 'h', ' ', '{', x, ' '] + v + seq!['}', ' '] + b + seq!['}']
}

/// `{op l r}`.
pub open spec fn op_text(op: char, l: Seq<char>, r: Seq<char>) -> Seq<char> {
    seq!['{', op, ' '] + l + seq![' '] + r + seq!['}']
}

/// The text of an expression, with single spaces.
pub open spec fn wae_text(e: WaeV) -> Seq<char>
    decreases e,
{
    match e {
        WaeV::Num(crate::num::NumV::Lit(n)) => n,
        WaeV::Num(_) => Seq::empty(),
        WaeV::Id(x) => x,
        WaeV::Add(l, r) => op_text('+', wae_text(*l), wae_text(*r)),
        WaeV::Sub(l, r) => op_text('-', wae_text(*l), wae_text(*r)),
        WaeV::With(x, v, b) => with_text(x[0], wae_text(*v), wae_text(*b)),
    }
}

/// No `with` anywhere in the expression.
pub open spec fn no_with(e: WaeV) -> bool
    decreases e,
{
    match e {
        WaeV::Add(l, r) => no_with(*l) && no_with(*r),
        WaeV::Sub(l, r) => no_with(*l) && no_with(*r),
        WaeV::With(_, _, _) => false,
        _ => true,
    }
}

/// An identifier the scan records: one letter other than `w` (a `w` is
/// looked at only as the start of the keyword).
pub open spec fn is_wae_id(x: Seq<char>) -> bool {
    x.len() == 1 && is_letter(x[0]) && x[0] != 'w'
}

/// An expression the parser reads as written: number literals, identifiers
/// as above, no `with` inside a sum or difference (the scan takes the
/// keyword for the form wherever it stands), and a named expression of a
/// `with` that is no identifier.
pub open spec fn wae_wf(e: WaeV) -> bool
    decreases e,
{
    match e {
        WaeV::Num(crate::num::NumV::Lit(n)) => is_literal(n),
        WaeV::Num(_) => false,
        WaeV::Id(x) => is_wae_id(x),
        WaeV::Add(l, r) => wae_wf(*l) && wae_wf(*r) && no_with(*l) && no_with(*r),
        WaeV::Sub(l, r) => wae_wf(*l) && wae_wf(*r) && no_with(*l) && no_with(*r),
        WaeV::With(x, v, b) => is_wae_id(x) && wae_wf(*v) && !(*v is Id) && wae_wf(*b),
    }
}

/// The number of nodes of an expression.
pub open spec fn text_size(e: WaeV) -> nat
    decreases e,
{
    match e {
        WaeV::Add(l, r) => 1 + text_size(*l) + text_size(*r),
        WaeV::Sub(l, r) => 1 + text_size(*l) + text_size(*r),
        WaeV::With(_, v, b) => 1 + text_size(*v) + text_size(*b),
        _ => 1,
    }
}

/// The scan over positions `i` to `j` of `s`, from the state `st`.
pub open spec fn wae_run(s: Seq<char>, st: WaeScan, i: int, j: int) -> Option<WaeScan>
    decreases j - i,
{
    if i >= j {
        Some(st)
    } else {
        match wae_step(s, i, st) {
            Some(st2) => wae_run(s, st2, i + 1, j),
            None => None,
        }
    }
}

proof fn lemma_run_split(s: Seq<char>, st: WaeScan, i: int, j: int, k: int)
    requires
        i <= j <= k,
    ensures
        wae_run(s, st, i, k) == match wae_run(s, st, i, j) {
            Some(m) => wae_run(s, m, j, k),
            None => None,
        },
    decreases j - i,
{
    if i < j {
        if let Some(st2) = wae_step(s, i, st) {
            lemma_run_split(s, st2, i + 1, j, k);
        }
    }
}

proof fn lemma_upto_run(s: Seq<char>, st: WaeScan, n: nat)
    ensures
        wae_scan_upto(s, st, n) == wae_run(s, st, 0, n as int),
    decreases n,
{
    if n > 0 {
        lemma_upto_run(s, st, (n - 1) as nat);
        lemma_run_split(s, st, 0, n - 1, n as int);
        if let Some(m) = wae_run(s, st, 0, n - 1) {
            assert(wae_run(s, m, n - 1, n as int) == match wae_step(s, n - 1, m) {
                Some(st2) => wae_run(s, st2, n as int, n as int),
                None => None,
            });
        }
    }
}

proof fn lemma_run_one(s: Seq<char>, st: WaeScan, i: int)
    ensures
        wae_run(s, st, i, i + 1) == wae_step(s, i, st),
{
    if let Some(st2) = wae_step(s, i, st) {
        assert(wae_run(s, st2, i + 1, i + 1) == Some(st2));
    }
}

proof fn lemma_run_join(s: Seq<char>, st: WaeScan, mid: WaeScan, fin: WaeScan, a: int, m: int, b: int)
    requires
        a <= m <= b,
        wae_run(s, st, a, m) == Some(mid),
        wae_run(s, mid, m, b) == Some(fin),
    ensures
        wae_run(s, st, a, b) == Some(fin),
{
    lemma_run_split(s, st, a, m, b);
}

proof fn lemma_run_step(s: Seq<char>, st: WaeScan, fin: WaeScan, i: int)
    requires
        wae_step(s, i, st) == Some(fin),
    ensures
        wae_run(s, st, i, i + 1) == Some(fin),
{
    lemma_run_one(s, st, i);
}

proof fn lemma_run_still(s: Seq<char>, st: WaeScan, i: int, j: int)
    requires
        i <= j,
        forall|k: int| i <= k < j ==> #[trigger] wae_step(s, k, st) == Some(st),
    ensures
        wae_run(s, st, i, j) == Some(st),
    decreases j - i,
{
    if i < j {
        lemma_run_still(s, st, i + 1, j);
    }
}

proof fn lemma_ascii_bytes(s: Seq<char>)
    requires
        is_ascii_chars(s),
    ensures
        bytes_of(s).len() == s.len(),
        forall|k: int| 0 <= k < s.len() ==> #[trigger] bytes_of(s)[k] == s[k] as u8,
{
    is_ascii_chars_encode_utf8(s);
    is_ascii_chars_nat_bound(s);
}

proof fn lemma_minus_ascii(s: Seq<char>, k: int)
    requires
        is_ascii_chars(s),
        0 < k <= s.len(),
    ensures
        minus_before(bytes_of(s), k) <==> s[k - 1] == '-',
{
    lemma_ascii_bytes(s);
    assert(bytes_of(s)[k - 1] == s[k - 1] as u8);
}

/// The keyword `with` followed by more text.
proof fn lemma_with_keyword(s: Seq<char>, k: int, st: WaeScan)
    requires
        is_ascii_chars(s),
        0 <= k,
        k + 4 < s.len(),
        s[k] == 'w' && s[k + 1] == 'i' && s[k + 2] == 't' && s[k + 3] == 'h',
        st.skip == 0,
    ensures
        wae_step(s, k, st) == Some(WaeScan { ind: s_index { oper: 'w', ..st.ind }, skip: 3, ..st }),
{
    lemma_ascii_bytes(s);
    let b = bytes_of(s);
    law_ascii_slice(s, k, k + 4);
    assert(b[k] == s[k] as u8 && b[k + 1] == s[k + 1] as u8 && b[k + 2] == s[k + 2] as u8 && b[k
        + 3] == s[k + 3] as u8);
    assert(b.subrange(k, k + 4) =~= with_bytes());
}

/// Passing over the letters of a keyword after it is met.
proof fn lemma_skip_keyword(s: Seq<char>, st: WaeScan, k: int, n: nat)
    requires
        0 <= k,
        k + n <= s.len(),
    ensures
        wae_run(s, WaeScan { skip: n, ..st }, k, k + n) == Some(WaeScan { skip: 0, ..st }),
    decreases n,
{
    if n > 0 {
        let st1 = WaeScan { skip: n, ..st };
        let st2 = WaeScan { skip: (n - 1) as nat, ..st };
        lemma_run_step(s, st1, st2, k);
        lemma_skip_keyword(s, st, k + 1, (n - 1) as nat);
        lemma_run_join(s, st1, st2, WaeScan { skip: 0, ..st }, k, k + 1, k + n);
    }
}

proof fn lemma_placed_part(s: Seq<char>, i: int, t: Seq<char>, a: int, p: Seq<char>)
    requires
        placed(s, i, t),
        0 <= a,
        a + p.len() <= t.len(),
        t.subrange(a, a + p.len()) == p,
    ensures
        placed(s, i + a, p),
{
    assert(s.subrange(i + a, i + a + p.len()) =~= p) by {
        assert forall|m: int| 0 <= m < p.len() implies s.subrange(i + a, i + a + p.len())[m]
            == p[m] by {
            assert(s[i + a + m] == s.subrange(i, i + t.len())[a + m]);
            assert(p[m] == t.subrange(a, a + p.len())[m]);
        }
    }
}

proof fn lemma_placed_char(s: Seq<char>, i: int, t: Seq<char>, m: int)
    requires
        placed(s, i, t),
        0 <= m < t.len(),
    ensures
        s[i + m] == t[m],
{
    assert(s[i + m] == s.subrange(i, i + t.len())[m]);
}

/// The parts of `{op l r}`.
proof fn lemma_op_parts(s: Seq<char>, i: int, op: char, l: Seq<char>, r: Seq<char>)
    requires
        placed(s, i, op_text(op, l, r)),
    ensures
        op_text(op, l, r).len() == l.len() + r.len() + 5,
        s[i] == '{' && s[i + 1] == op && s[i + 2] == ' ',
        placed(s, i + 3, l),
        s[i + 3 + l.len()] == ' ',
        placed(s, i + 4 + l.len(), r),
        s[i + 4 + l.len() + r.len()] == '}',
{
    let t = op_text(op, l, r);
    let a = l.len() as int;
    let b = r.len() as int;
    lemma_placed_char(s, i, t, 0);
    lemma_placed_char(s, i, t, 1);
    lemma_placed_char(s, i, t, 2);
    lemma_placed_char(s, i, t, 3 + a);
    lemma_placed_char(s, i, t, 4 + a + b);
    assert(t.subrange(3, 3 + a) =~= l);
    assert(t.subrange(4 + a, 4 + a + b) =~= r);
    lemma_placed_part(s, i, t, 3, l);
    lemma_placed_part(s, i, t, 4 + a, r);
}

/// The parts of `{with {x v} b}`.
proof fn lemma_with_parts(s: Seq<char>, i: int, x: char, v: Seq<char>, b: Seq<char>)
    requires
        placed(s, i, with_text(x, v, b)),
    ensures
        with_text(x, v, b).len() == v.len() + b.len() + 12,
        s[i] == '{' && s[i + 1] == 'w' && s[i + 2] == 'i' && s[i + 3] == 't' && s[i + 4] == 'h',
        s[i + 5] == ' ' && s[i + 6] == '{' && s[i + 7] == x && s[i + 8] == ' ',
        placed(s, i + 9, v),
        s[i + 9 + v.len()] == '}',
        s[i + 10 + v.len()] == ' ',
        placed(s, i + 11 + v.len(), b),
        s[i + 11 + v.len() + b.len()] == '}',
{
    let t = with_text(x, v, b);
    let n = v.len() as int;
    let m2 = b.len() as int;
    assert forall|m: int| 0 <= m < 9 implies s[i + m] == #[trigger] t[m] by {
        lemma_placed_char(s, i, t, m);
    }
    assert(s[i] == t[0] && s[i + 1] == t[1] && s[i + 2] == t[2] && s[i + 3] == t[3]);
    assert(s[i + 4] == t[4] && s[i + 5] == t[5] && s[i + 6] == t[6] && s[i + 7] == t[7]);
    assert(s[i + 8] == t[8]);
    lemma_placed_char(s, i, t, 9 + n);
    lemma_placed_char(s, i, t, 10 + n);
    lemma_placed_char(s, i, t, 11 + n + m2);
    assert(t.subrange(9, 9 + n) =~= v);
    assert(t.subrange(11 + n, 11 + n + m2) =~= b);
    lemma_placed_part(s, i, t, 9, v);
    lemma_placed_part(s, i, t, 11 + n, b);
}

proof fn lemma_wae_text(e: WaeV)
    requires
        wae_wf(e),
    ensures
        is_ascii_chars(wae_text(e)),
        wae_text(e).len() >= 1,
        e is Num ==> is_literal(wae_text(e)),
        e is Id ==> wae_text(e).len() == 1 && is_letter(wae_text(e)[0]) && wae_text(e)[0] != 'w',
        !(e is Num) && !(e is Id) ==> wae_text(e)[0] == '{',
        e is Add ==> wae_text(e) == op_text('+', wae_text(*e->Add_0), wae_text(*e->Add_1)),
        e is Sub ==> wae_text(e) == op_text('-', wae_text(*e->Sub_0), wae_text(*e->Sub_1)),
        e is With ==> wae_text(e) == with_text(e->With_0[0], wae_text(*e->With_1), wae_text(*e->With_2)),
    decreases e,
{
    let t = wae_text(e);
    match e {
        WaeV::Num(crate::num::NumV::Lit(n)) => {
            assert forall|m: int| 0 <= m < n.len() implies '\0' <= #[trigger] n[m] <= '\u{7f}' by {
                if m > 0 {
                    assert(is_num_char(n[m]));
                }
            }
        },
        WaeV::Id(x) => {
            assert forall|m: int| 0 <= m < t.len() implies '\0' <= #[trigger] t[m] <= '\u{7f}' by {}
        },
        WaeV::Add(l, r) | WaeV::Sub(l, r) => {
            lemma_wae_text(*l);
            lemma_wae_text(*r);
            let tl = wae_text(*l);
            let tr = wae_text(*r);
            assert forall|m: int| 0 <= m < t.len() implies '\0' <= #[trigger] t[m] <= '\u{7f}' by {
                if 3 <= m < 3 + tl.len() {
                    assert(t[m] == tl[m - 3]);
                } else if 4 + tl.len() <= m < 4 + tl.len() + tr.len() {
                    assert(t[m] == tr[m - 4 - tl.len()]);
                }
            }
        },
        WaeV::With(x, v, b) => {
            lemma_wae_text(*v);
            lemma_wae_text(*b);
            let tv = wae_text(*v);
            let tb = wae_text(*b);
            assert forall|m: int| 0 <= m < t.len() implies '\0' <= #[trigger] t[m] <= '\u{7f}' by {
                if 9 <= m < 9 + tv.len() {
                    assert(t[m] == tv[m - 9]);
                } else if 11 + tv.len() <= m < 11 + tv.len() + tb.len() {
                    assert(t[m] == tb[m - 11 - tv.len()]);
                }
            }
        },
        _ => {},
    }
}

/// Two or more braces deep inside the outermost form, with nothing being
/// read that the text could change but the identifier: no left number in
/// progress, no keyword being passed over, and (at depth two of a `with`)
/// its identifier and named expression found.
pub open spec fn quiet(st: WaeScan) -> bool {
    &&& st.depth >= 2
    &&& st.lhs_write != 1
    &&& st.skip == 0
    &&& (st.depth == 2 && st.ind.oper == 'w') ==> st.ind.id_expr_start != 0
        && st.ind.id_expr_end != 0 && st.ind.id != 0
}

/// `r` is `st` but for an identifier position, which is unchanged or, where
/// none was found yet, before `lim`.
pub open spec fn same_but_id(r: WaeScan, st: WaeScan, lim: int) -> bool {
    &&& r == WaeScan { ind: s_index { id: r.ind.id, ..st.ind }, ..st }
    &&& (r.ind.id == st.ind.id || (st.ind.id == 0 && r.ind.id < lim))
}

proof fn lemma_same_trans(r2: WaeScan, r1: WaeScan, st: WaeScan, lim1: int, lim2: int)
    requires
        same_but_id(r1, st, lim1),
        same_but_id(r2, r1, lim2),
        lim1 <= lim2,
    ensures
        same_but_id(r2, st, lim2),
{
}

/// Where `e` can be read quietly at `i` of `s`.
pub open spec fn inner_ready(s: Seq<char>, i: int, e: WaeV, st: WaeScan) -> bool {
    &&& wae_wf(e)
    &&& is_ascii_chars(s)
    &&& s.len() < usize::MAX
    &&& placed(s, i, wae_text(e))
    &&& i + wae_text(e).len() < s.len()
    &&& (s[i + wae_text(e).len()] == ' ' || s[i + wae_text(e).len()] == '}')
    &&& quiet(st)
    &&& (st.ind.oper != 'w' ==> no_with(e))
}

/// What lies inside the braces of a bracketed expression can be read
/// quietly one brace deeper.
pub open spec fn contents_ready(s: Seq<char>, i: int, e: WaeV, st1: WaeScan) -> bool {
    &&& wae_wf(e)
    &&& !(e is Num) && !(e is Id)
    &&& is_ascii_chars(s)
    &&& s.len() < usize::MAX
    &&& placed(s, i, wae_text(e))
    &&& quiet(st1)
    &&& (st1.ind.oper != 'w' ==> no_with(e))
}

proof fn lemma_contents_last(s: Seq<char>, i: int, e: WaeV)
    requires
        wae_wf(e),
        !(e is Num) && !(e is Id),
        placed(s, i, wae_text(e)),
    ensures
        wae_text(e).len() >= 5,
        s[i + wae_text(e).len() - 1] == '}',
{
    lemma_wae_text(e);
    match e {
        WaeV::Add(l, r) => {
            lemma_op_parts(s, i, '+', wae_text(*l), wae_text(*r));
        },
        WaeV::Sub(l, r) => {
            lemma_op_parts(s, i, '-', wae_text(*l), wae_text(*r));
        },
        WaeV::With(x, v, b) => {
            lemma_with_parts(s, i, x[0], wae_text(*v), wae_text(*b));
        },
        _ => {},
    }
}

/// A well-formed expression read where the scan is quiet changes at most
/// the identifier position.
proof fn lemma_inner(s: Seq<char>, i: int, e: WaeV, st: WaeScan)
    requires
        inner_ready(s, i, e, st),
    ensures
        wae_run(s, st, i, i + wae_text(e).len()) matches Some(r) && same_but_id(
            r,
            st,
            i + wae_text(e).len(),
        ),
    decreases text_size(e), 2nat,
{
    lemma_wae_text(e);
    lemma_ascii_bytes(s);
    let t = wae_text(e);
    let n = t.len() as int;
    match e {
        WaeV::Num(_) => {
            assert forall|k: int| i <= k < i + n implies #[trigger] wae_step(s, k, st) == Some(st) by {
                lemma_placed_char(s, i, t, k - i);
            }
            lemma_run_still(s, st, i, i + n);
        },
        WaeV::Id(x) => {
            lemma_placed_char(s, i, t, 0);
            lemma_run_one(s, st, i);
        },
        _ => {
            let st1 = WaeScan { depth: st.depth + 1, ..st };
            lemma_placed_char(s, i, t, 0);
            lemma_contents_last(s, i, e);
            lemma_run_step(s, st, st1, i);
            lemma_contents(s, i, e, st1);
            let r = wae_run(s, st1, i + 1, i + n - 1)->0;
            let r2 = WaeScan { depth: st.depth, ..r };
            lemma_run_step(s, r, r2, i + n - 1);
            lemma_run_join(s, st, st1, r, i, i + 1, i + n - 1);
            lemma_run_join(s, st, r, r2, i, i + n - 1, i + n);
        },
    }
}

/// Inside the braces of a bracketed expression, where the scan is quiet,
/// at most the identifier position changes.
proof fn lemma_contents(s: Seq<char>, i: int, e: WaeV, st1: WaeScan)
    requires
        contents_ready(s, i, e, st1),
    ensures
        wae_run(s, st1, i + 1, i + wae_text(e).len() - 1) matches Some(r) && same_but_id(
            r,
            st1,
            i + wae_text(e).len() - 1,
        ),
    decreases text_size(e), 1nat,
{
    if e is With {
        lemma_contents_with(s, i, e, st1);
    } else {
        lemma_contents_op(s, i, e, st1);
    }
}

proof fn lemma_contents_op(s: Seq<char>, i: int, e: WaeV, st1: WaeScan)
    requires
        contents_ready(s, i, e, st1),
        e is Add || e is Sub,
    ensures
        wae_run(s, st1, i + 1, i + wae_text(e).len() - 1) matches Some(r) && same_but_id(
            r,
            st1,
            i + wae_text(e).len() - 1,
        ),
    decreases text_size(e), 0nat,
{
    lemma_wae_text(e);
    lemma_ascii_bytes(s);
    let t = wae_text(e);
    let n = t.len() as int;
    match e {
        WaeV::Add(l, r) | WaeV::Sub(l, r) => {
            let op = if e is Add { '+' } else { '-' };
            let tl = wae_text(*l);
            let tr = wae_text(*r);
            lemma_op_parts(s, i, op, tl, tr);
            lemma_wae_text(*l);
            lemma_wae_text(*r);
            let p = i + 3 + tl.len();
            let q = p + 1 + tr.len();
            lemma_run_step(s, st1, st1, i + 1);
            lemma_run_step(s, st1, st1, i + 2);
            lemma_run_join(s, st1, st1, st1, i + 1, i + 2, i + 3);
            lemma_inner(s, i + 3, *l, st1);
            let r1 = wae_run(s, st1, i + 3, p)->0;
            lemma_run_join(s, st1, st1, r1, i + 1, i + 3, p);
            lemma_run_step(s, r1, r1, p);
            lemma_run_join(s, st1, r1, r1, i + 1, p, p + 1);
            lemma_inner(s, p + 1, *r, r1);
            let r2 = wae_run(s, r1, p + 1, q)->0;
            lemma_run_join(s, st1, r1, r2, i + 1, p + 1, q);
            lemma_same_trans(r2, r1, st1, p, q);
        },
        _ => {},
    }
}

proof fn lemma_contents_with(s: Seq<char>, i: int, e: WaeV, st1: WaeScan)
    requires
        contents_ready(s, i, e, st1),
        e is With,
    ensures
        wae_run(s, st1, i + 1, i + wae_text(e).len() - 1) matches Some(r) && same_but_id(
            r,
            st1,
            i + wae_text(e).len() - 1,
        ),
    decreases text_size(e), 0nat,
{
    lemma_wae_text(e);
    lemma_ascii_bytes(s);
    let t = wae_text(e);
    let n = t.len() as int;
    if let WaeV::With(x, v, b) = e {
        let tv = wae_text(*v);
        let tb = wae_text(*b);
        lemma_with_parts(s, i, x[0], tv, tb);
        lemma_wae_text(*v);
        lemma_wae_text(*b);
        let p = i + 9 + tv.len();
        let q = p + 2 + tb.len();
        let st2 = WaeScan { depth: st1.depth + 1, ..st1 };
        lemma_with_keyword(s, i + 1, st1);
        lemma_run_step(s, st1, WaeScan { skip: 3, ..st1 }, i + 1);
        lemma_skip_keyword(s, st1, i + 2, 3);
        lemma_run_join(s, st1, WaeScan { skip: 3, ..st1 }, st1, i + 1, i + 2, i + 5);
        lemma_run_step(s, st1, st1, i + 5);
        lemma_run_step(s, st1, st2, i + 6);
        lemma_run_step(s, st2, st2, i + 7);
        lemma_run_step(s, st2, st2, i + 8);
        lemma_run_join(s, st1, st1, st1, i + 1, i + 5, i + 6);
        lemma_run_join(s, st1, st1, st2, i + 1, i + 6, i + 7);
        lemma_run_join(s, st1, st2, st2, i + 1, i + 7, i + 8);
        lemma_run_join(s, st1, st2, st2, i + 1, i + 8, i + 9);
        lemma_inner(s, i + 9, *v, st2);
        let r1 = wae_run(s, st2, i + 9, p)->0;
        lemma_run_join(s, st1, st2, r1, i + 1, i + 9, p);
        let r1b = WaeScan { depth: st1.depth, ..r1 };
        lemma_run_step(s, r1, r1b, p);
        lemma_run_join(s, st1, r1, r1b, i + 1, p, p + 1);
        lemma_run_step(s, r1b, r1b, p + 1);
        lemma_run_join(s, st1, r1b, r1b, i + 1, p + 1, p + 2);
        lemma_inner(s, p + 2, *b, r1b);
        let r2 = wae_run(s, r1b, p + 2, q)->0;
        lemma_run_join(s, st1, r1b, r2, i + 1, p + 2, q);
        lemma_same_trans(r2, r1b, st1, p, q);
    }
}

/// The state after the digits of a literal that starts at `i` and whose last
/// digit so far is at `last`, read as the left operand (`left`) or the right
/// one.
pub open spec fn literal_state(st: WaeScan, i: int, last: int, left: bool) -> WaeScan {
    if left {
        WaeScan {
            ind: s_index { lhs_start: i as usize, lhs_end: last as usize, ..st.ind },
            lhs_write: 1,
            ..st
        }
    } else {
        WaeScan { ind: s_index { rhs_start: i as usize, rhs_end: last as usize, ..st.ind }, ..st }
    }
}

proof fn lemma_digits(s: Seq<char>, i: int, j0: int, n: int, st: WaeScan, left: bool)
    requires
        is_ascii_chars(s),
        s.len() < usize::MAX,
        0 <= i,
        1 <= n,
        j0 == i || j0 == i + 1,
        j0 + n <= s.len(),
        j0 == i + 1 ==> s[i] == '-',
        j0 == i && i > 0 ==> s[i - 1] != '-',
        forall|k: int| j0 <= k < j0 + n ==> is_num_char(#[trigger] s[k]),
        st.depth <= 1,
        st.skip == 0,
        left ==> st.lhs_write == 0 && st.ind.lhs_start == 0,
        !left ==> st.lhs_write == 2 && st.ind.rhs_start == 0 && i >= 1,
    ensures
        wae_run(s, st, j0, j0 + n) == Some(literal_state(st, i, j0 + n - 1, left)),
    decreases n,
{
    let k = j0 + n - 1;
    assert(is_num_char(s[k]));
    if k > 0 {
        lemma_minus_ascii(s, k);
    }
    if n == 1 {
        lemma_run_one(s, st, j0);
    } else {
        lemma_digits(s, i, j0, n - 1, st, left);
        assert(is_num_char(s[k - 1]));
        lemma_run_split(s, st, j0, k, k + 1);
        lemma_run_one(s, literal_state(st, i, k - 1, left), k);
    }
}

/// A literal read at depth at most one, as the left or the right operand,
/// where its sign cannot be taken for an operator.
proof fn lemma_literal(s: Seq<char>, i: int, lit: Seq<char>, st: WaeScan, left: bool)
    requires
        is_literal(lit),
        is_ascii_chars(s),
        s.len() < usize::MAX,
        placed(s, i, lit),
        i > 0 ==> s[i - 1] != '-',
        st.depth <= 1,
        st.skip == 0,
        st.depth == 1 ==> st.ind.oper != ' ',
        left ==> st.lhs_write == 0 && st.ind.lhs_start == 0,
        !left ==> st.lhs_write == 2 && st.ind.rhs_start == 0 && i >= 1,
    ensures
        wae_run(s, st, i, i + lit.len()) == Some(literal_state(st, i, i + lit.len() - 1, left)),
{
    let n = lit.len() as int;
    assert forall|m: int| 0 <= m < n implies s[i + m] == #[trigger] lit[m] by {
        lemma_placed_char(s, i, lit, m);
    }
    if lit[0] == '-' {
        assert(s[i] == '-');
        lemma_run_one(s, st, i);
        assert(wae_step(s, i, st) == Some(st));
        assert forall|k: int| i + 1 <= k < i + 1 + (n - 1) implies is_num_char(#[trigger] s[k]) by {
            assert(s[k] == lit[k - i]);
        }
        lemma_digits(s, i, i + 1, n - 1, st, left);
        lemma_run_split(s, st, i, i + 1, i + n);
    } else {
        assert forall|k: int| i <= k < i + n implies is_num_char(#[trigger] s[k]) by {
            assert(s[k] == lit[k - i]);
        }
        lemma_digits(s, i, i, n, st, left);
    }
}

/// The state after an operand from `i` to `last` at depth one.
pub open spec fn operand_state(st: WaeScan, i: int, last: int, left: bool, is_num: bool) -> WaeScan {
    if is_num || !left {
        literal_state(st, i, last, left)
    } else {
        WaeScan {
            ind: s_index { lhs_start: i as usize, lhs_end: last as usize, ..st.ind },
            lhs_write: 2,
            ..st
        }
    }
}

/// Where `e` can be read at `i` of `s` as an operand of the outermost form.
pub open spec fn operand_ready(s: Seq<char>, i: int, e: WaeV, st: WaeScan, left: bool) -> bool {
    &&& wae_wf(e)
    &&& is_ascii_chars(s)
    &&& s.len() < usize::MAX
    &&& placed(s, i, wae_text(e))
    &&& i >= 1
    &&& s[i - 1] != '-'
    &&& i + wae_text(e).len() < s.len()
    &&& (s[i + wae_text(e).len()] == ' ' || s[i + wae_text(e).len()] == '}')
    &&& st.depth == 1
    &&& st.skip == 0
    &&& st.ind.oper != ' '
    &&& (st.ind.oper == 'w' ==> st.ind.id_expr_start != 0 && st.ind.id_expr_end != 0 && st.ind.id
        != 0)
    &&& (st.ind.oper != 'w' ==> no_with(e))
    &&& (left ==> st.lhs_write == 0 && st.ind.lhs_start == 0 && st.ind.lhs_end == 0)
    &&& (!left ==> st.lhs_write == 2 && st.ind.rhs_start == 0 && st.ind.lhs_start != 0
        && st.ind.lhs_end != 0)
}

/// An operand of the outermost form, read as the left or the right one.
proof fn lemma_operand(s: Seq<char>, i: int, e: WaeV, st: WaeScan, left: bool)
    requires
        operand_ready(s, i, e, st, left),
    ensures
        wae_run(s, st, i, i + wae_text(e).len()) matches Some(r) && same_but_id(
            r,
            operand_state(st, i, i + wae_text(e).len() - 1, left, e is Num),
            i + wae_text(e).len(),
        ),
{
    lemma_wae_text(e);
    let t = wae_text(e);
    let n = t.len() as int;
    match e {
        WaeV::Num(crate::num::NumV::Lit(lit)) => {
            lemma_literal(s, i, lit, st, left);
        },
        WaeV::Id(x) => {
            lemma_placed_char(s, i, t, 0);
            lemma_run_step(s, st, operand_state(st, i, i, left, false), i);
        },
        _ => {
            let ind1 = if left {
                s_index { lhs_start: i as usize, ..st.ind }
            } else {
                s_index { rhs_start: i as usize, ..st.ind }
            };
            let st1 = WaeScan { ind: ind1, depth: 2, ..st };
            lemma_placed_char(s, i, t, 0);
            lemma_contents_last(s, i, e);
            lemma_run_step(s, st, st1, i);
            lemma_contents(s, i, e, st1);
            let r = wae_run(s, st1, i + 1, i + n - 1)->0;
            let fin0 = operand_state(st, i, i + n - 1, left, false);
            let fin = WaeScan { ind: s_index { id: r.ind.id, ..fin0.ind }, ..fin0 };
            lemma_run_step(s, r, fin, i + n - 1);
            lemma_run_join(s, st, st1, r, i, i + 1, i + n - 1);
            lemma_run_join(s, st, r, fin, i, i + n - 1, i + n);
        },
    }
}

proof fn lemma_run_end(b: Seq<u8>, j: int, stop: int)
    requires
        1 <= j <= stop < b.len(),
        forall|m: int| j <= m < stop ==> is_num_byte(#[trigger] b[m]),
        !is_num_byte(b[stop]),
    ensures
        num_run_end(b, j, j - 1) == stop - 1,
    decreases stop - j,
{
    if j < stop {
        lemma_run_end(b, j + 1, stop);
    }
}

/// Where the named expression of an outermost `with` can be read at `i`.
pub open spec fn named_ready(s: Seq<char>, i: int, e: WaeV, st: WaeScan) -> bool {
    &&& wae_wf(e)
    &&& !(e is Id)
    &&& is_ascii_chars(s)
    &&& s.len() < usize::MAX
    &&& placed(s, i, wae_text(e))
    &&& i >= 1
    &&& s[i - 1] == ' '
    &&& i + wae_text(e).len() < s.len()
    &&& s[i + wae_text(e).len()] == '}'
    &&& st.depth == 2
    &&& st.skip == 0
    &&& st.lhs_write == 0
    &&& st.ind.oper == 'w'
    &&& st.ind.id != 0
    &&& st.ind.id_expr_start == 0
    &&& st.ind.id_expr_end == 0
}

/// The named expression of an outermost `with` is recorded from its first
/// to its last character.
proof fn lemma_named(s: Seq<char>, i: int, e: WaeV, st: WaeScan)
    requires
        named_ready(s, i, e, st),
    ensures
        wae_run(s, st, i, i + wae_text(e).len()) == Some(
            WaeScan {
                ind: s_index {
                    id_expr_start: i as usize,
                    id_expr_end: (i + wae_text(e).len() - 1) as usize,
                    ..st.ind
                },
                ..st
            },
        ),
{
    lemma_wae_text(e);
    lemma_ascii_bytes(s);
    let t = wae_text(e);
    let n = t.len() as int;
    let b = bytes_of(s);
    let fin = WaeScan {
        ind: s_index { id_expr_start: i as usize, id_expr_end: (i + n - 1) as usize, ..st.ind },
        ..st
    };
    match e {
        WaeV::Num(crate::num::NumV::Lit(lit)) => {
            assert forall|m: int| 0 <= m < n implies s[i + m] == #[trigger] lit[m] by {
                lemma_placed_char(s, i, lit, m);
            }
            let k0 = if lit[0] == '-' { i + 1 } else { i };
            if lit[0] == '-' {
                assert(s[i] == '-');
                lemma_run_step(s, st, st, i);
            }
            assert forall|m: int| k0 + 1 <= m < i + n implies is_num_byte(#[trigger] b[m]) by {
                assert(s[m] == lit[m - i]);
                assert(is_num_char(s[m]));
                assert(b[m] == s[m] as u8);
            }
            assert(b[i + n] == s[i + n] as u8);
            lemma_run_end(b, k0 + 1, i + n);
            lemma_minus_ascii(s, k0);
            assert(is_num_char(s[k0])) by {
                assert(s[k0] == lit[k0 - i]);
            }
            lemma_run_step(s, st, fin, k0);
            assert forall|k: int| k0 + 1 <= k < i + n implies #[trigger] wae_step(s, k, fin) == Some(
                fin,
            ) by {
                assert(s[k] == lit[k - i]);
            }
            lemma_run_still(s, fin, k0 + 1, i + n);
            lemma_run_join(s, st, fin, fin, k0, k0 + 1, i + n);
            if lit[0] == '-' {
                lemma_run_join(s, st, st, fin, i, i + 1, i + n);
            }
        },
        _ => {
            let st1 = WaeScan {
                ind: s_index { id_expr_start: i as usize, ..st.ind },
                depth: 3,
                ..st
            };
            lemma_placed_char(s, i, t, 0);
            lemma_contents_last(s, i, e);
            lemma_run_step(s, st, st1, i);
            lemma_contents(s, i, e, st1);
            let r = wae_run(s, st1, i + 1, i + n - 1)->0;
            assert(r == st1);
            lemma_run_step(s, st1, fin, i + n - 1);
            lemma_run_join(s, st, st1, st1, i, i + 1, i + n - 1);
            lemma_run_join(s, st, st1, fin, i, i + n - 1, i + n);
        },
    }
}

/// The positions a scan finds in the text of a well-formed expression (for
/// a sum or difference, but for the identifier position, which the scan
/// may set inside an operand and the parser does not use).
pub open spec fn top_index(e: WaeV) -> s_index {
    let z = start_index();
    match e {
        WaeV::Num(_) => s_index { lhs_end: (wae_text(e).len() - 1) as usize, ..z },
        WaeV::Id(_) => s_index { oper: 'd', ..z },
        WaeV::Add(l, r) => op_index('+', wae_text(*l).len() as int, wae_text(*r).len() as int),
        WaeV::Sub(l, r) => op_index('-', wae_text(*l).len() as int, wae_text(*r).len() as int),
        WaeV::With(_, v, b) => {
            let a = wae_text(*v).len() as int;
            s_index {
                lhs_start: 6,
                lhs_end: (9 + a) as usize,
                id_expr_start: 9,
                id_expr_end: (8 + a) as usize,
                id: 7,
                rhs_start: (11 + a) as usize,
                rhs_end: (10 + a + wae_text(*b).len()) as usize,
                oper: 'w',
            }
        },
    }
}

/// The positions in `{op l r}` with operand texts of lengths `a` and `b`.
pub open spec fn op_index(op: char, a: int, b: int) -> s_index {
    s_index {
        lhs_start: 3,
        lhs_end: (2 + a) as usize,
        rhs_start: (4 + a) as usize,
        rhs_end: (3 + a + b) as usize,
        oper: op,
        ..start_index()
    }
}

/// The scan's starting state.
pub open spec fn scan_start() -> WaeScan {
    WaeScan { ind: start_index(), depth: 0, lhs_write: 0, skip: 0 }
}

/// The text of an expression stands at the start of `s`, followed by at
/// most a line break.
pub open spec fn top_ready(s: Seq<char>, e: WaeV) -> bool {
    &&& wae_wf(e)
    &&& is_line(s, wae_text(e))
    &&& s.len() < usize::MAX
}

/// What a scan of the text of `e` finds: `top_index(e)`, up to an
/// identifier position within the text for a sum or difference.
pub open spec fn found_for(e: WaeV, ind: s_index) -> bool {
    if e is Add || e is Sub {
        ind == s_index { id: ind.id, ..top_index(e) } && ind.id < wae_text(e).len()
    } else {
        ind == top_index(e)
    }
}

proof fn lemma_top_basics(s: Seq<char>, e: WaeV)
    requires
        top_ready(s, e),
    ensures
        is_ascii_chars(s),
        placed(s, 0, wae_text(e)),
        s.len() > wae_text(e).len() ==> s.len() == wae_text(e).len() + 1 && s[wae_text(e).len() as int]
            == '\n',
{
    lemma_wae_text(e);
    let t = wae_text(e);
    let n = t.len() as int;
    assert(s.subrange(0, n) =~= t);
    assert forall|m: int| 0 <= m < s.len() implies '\0' <= #[trigger] s[m] <= '\u{7f}' by {
        if m < n {
            assert(s[m] == t[m]);
        }
    }
    if s.len() > n {
        assert(s == t + seq!['\n']);
        assert(s[n] == '\n');
    }
}

proof fn lemma_top_op(s: Seq<char>, e: WaeV)
    requires
        top_ready(s, e),
        e is Add || e is Sub,
    ensures
        wae_run(s, scan_start(), 0, wae_text(e).len() as int) matches Some(fin) && found_for(
            e,
            fin.ind,
        ) && fin.depth == 0 && fin.skip == 0,
{
    lemma_top_basics(s, e);
    lemma_wae_text(e);
    let t = wae_text(e);
    let n = t.len() as int;
    let st0 = scan_start();
    match e {
        WaeV::Add(l, r) | WaeV::Sub(l, r) => {
            let tl = wae_text(*l);
            let tr = wae_text(*r);
            lemma_wae_text(*l);
            lemma_wae_text(*r);
            let op = if e is Add { '+' } else { '-' };
            lemma_op_parts(s, 0, op, tl, tr);
            let p = 3 + tl.len() as int;
            let q = p + 1 + tr.len() as int;
            let st1 = WaeScan { depth: 1, ..st0 };
            let st2 = WaeScan { ind: s_index { oper: op, ..st0.ind }, depth: 1, ..st0 };
            lemma_run_step(s, st0, st1, 0);
            lemma_run_step(s, st1, st2, 1);
            lemma_run_step(s, st2, st2, 2);
            lemma_run_join(s, st0, st1, st2, 0, 1, 2);
            lemma_run_join(s, st0, st2, st2, 0, 2, 3);
            lemma_operand(s, 3, *l, st2, true);
            let r3 = wae_run(s, st2, 3, p)->0;
            lemma_run_join(s, st0, st2, r3, 0, 3, p);
            let st4 = WaeScan { lhs_write: 2, ..r3 };
            lemma_run_step(s, r3, st4, p);
            lemma_run_join(s, st0, r3, st4, 0, p, p + 1);
            lemma_operand(s, p + 1, *r, st4, false);
            let r5 = wae_run(s, st4, p + 1, q)->0;
            lemma_run_join(s, st0, st4, r5, 0, p + 1, q);
            let st6 = WaeScan { depth: 0, ..r5 };
            lemma_run_step(s, r5, st6, q);
            lemma_run_join(s, st0, r5, st6, 0, q, q + 1);
        },
        _ => {},
    }
}

proof fn lemma_top_with(s: Seq<char>, e: WaeV)
    requires
        top_ready(s, e),
        e is With,
    ensures
        wae_run(s, scan_start(), 0, wae_text(e).len() as int) matches Some(fin) && found_for(
            e,
            fin.ind,
        ) && fin.depth == 0 && fin.skip == 0,
{
    lemma_top_basics(s, e);
    lemma_wae_text(e);
    lemma_ascii_bytes(s);
    let t = wae_text(e);
    let n = t.len() as int;
    let st0 = scan_start();
    if let WaeV::With(x, v, b) = e {
        let tv = wae_text(*v);
        let tb = wae_text(*b);
        lemma_wae_text(*v);
        lemma_wae_text(*b);
        lemma_with_parts(s, 0, x[0], tv, tb);
        let p = 9 + tv.len() as int;
        let q = p + 2 + tb.len() as int;
        let st1 = WaeScan { depth: 1, ..st0 };
        let stw = WaeScan { ind: s_index { oper: 'w', ..st0.ind }, depth: 1, ..st0 };
        lemma_run_step(s, st0, st1, 0);
        lemma_with_keyword(s, 1, st1);
        lemma_run_step(s, st1, WaeScan { skip: 3, ..stw }, 1);
        lemma_skip_keyword(s, stw, 2, 3);
        lemma_run_join(s, st1, WaeScan { skip: 3, ..stw }, stw, 1, 2, 5);
        lemma_run_join(s, st0, st1, stw, 0, 1, 5);
        lemma_run_step(s, stw, stw, 5);
        let st6 = WaeScan { ind: s_index { lhs_start: 6, ..stw.ind }, depth: 2, ..stw };
        lemma_run_step(s, stw, st6, 6);
        let st7 = WaeScan { ind: s_index { id: 7, ..st6.ind }, ..st6 };
        lemma_run_step(s, st6, st7, 7);
        lemma_run_step(s, st7, st7, 8);
        lemma_run_join(s, st0, stw, stw, 0, 5, 6);
        lemma_run_join(s, st0, stw, st6, 0, 6, 7);
        lemma_run_join(s, st0, st6, st7, 0, 7, 8);
        lemma_run_join(s, st0, st7, st7, 0, 8, 9);
        lemma_named(s, 9, *v, st7);
        let st8 = WaeScan {
            ind: s_index { id_expr_start: 9, id_expr_end: (p - 1) as usize, ..st7.ind },
            ..st7
        };
        lemma_run_join(s, st0, st7, st8, 0, 9, p);
        let st9 = WaeScan {
            ind: s_index { lhs_end: p as usize, ..st8.ind },
            depth: 1,
            lhs_write: 2,
            ..st8
        };
        lemma_run_step(s, st8, st9, p);
        lemma_run_step(s, st9, st9, p + 1);
        lemma_run_join(s, st0, st8, st9, 0, p, p + 1);
        lemma_run_join(s, st0, st9, st9, 0, p + 1, p + 2);
        lemma_operand(s, p + 2, *b, st9, false);
        let r10 = wae_run(s, st9, p + 2, q)->0;
        lemma_run_join(s, st0, st9, r10, 0, p + 2, q);
        let st11 = WaeScan { depth: 0, ..r10 };
        lemma_run_step(s, r10, st11, q);
        lemma_run_join(s, st0, r10, st11, 0, q, n);
        assert(st11.ind == top_index(e));
    }
}

proof fn lemma_scan_text(s: Seq<char>, e: WaeV)
    requires
        top_ready(s, e),
    ensures
        wae_scan(s, start_index()) matches Some(ind) && found_for(e, ind),
{
    lemma_top_basics(s, e);
    lemma_wae_text(e);
    lemma_ascii_bytes(s);
    let t = wae_text(e);
    let n = t.len() as int;
    let st0 = scan_start();
    lemma_upto_run(s, st0, s.len());
    let fin = match e {
        WaeV::Num(crate::num::NumV::Lit(lit)) => {
            lemma_literal(s, 0, lit, st0, true);
            literal_state(st0, 0, n - 1, true)
        },
        WaeV::Id(x) => {
            lemma_placed_char(s, 0, t, 0);
            let f = WaeScan { ind: s_index { oper: 'd', ..st0.ind }, ..st0 };
            lemma_run_step(s, st0, f, 0);
            f
        },
        WaeV::With(_, _, _) => {
            lemma_top_with(s, e);
            wae_run(s, st0, 0, n)->0
        },
        _ => {
            lemma_top_op(s, e);
            wae_run(s, st0, 0, n)->0
        },
    };
    assert(wae_run(s, st0, 0, n) == Some(fin));
    assert(found_for(e, fin.ind) && fin.depth == 0 && fin.skip == 0);
    if s.len() > n {
        lemma_run_split(s, st0, 0, n, n + 1);
        lemma_run_step(s, fin, fin, n);
    }
}

/// Parsing the text of a well-formed expression gives the expression back,
/// and so does parsing it with the line break that reading a line leaves.
pub proof fn law_wae_parse_text(e: WaeV)
    requires
        wae_wf(e),
        wae_text(e).len() + 1 < usize::MAX,
    ensures
        spec_parse(wae_text(e)) == Some(e),
        spec_parse(wae_text(e) + seq!['\n']) == Some(e),
{
    lemma_parse_line(wae_text(e), e);
    lemma_parse_line(wae_text(e) + seq!['\n'], e);
}

proof fn lemma_parse_line(s: Seq<char>, e: WaeV)
    requires
        top_ready(s, e),
    ensures
        spec_parse(s) == Some(e),
    decreases text_size(e), 1nat,
{
    if e is With {
        lemma_parse_with(s, e);
    } else if e is Add || e is Sub {
        lemma_parse_op(s, e);
    } else {
        lemma_parse_leaf(s, e);
    }
}

proof fn lemma_parse_leaf(s: Seq<char>, e: WaeV)
    requires
        top_ready(s, e),
        e is Num || e is Id,
    ensures
        spec_parse(s) == Some(e),
{
    lemma_top_basics(s, e);
    lemma_wae_text(e);
    lemma_scan_text(s, e);
    let t = wae_text(e);
    let n = t.len() as int;
    law_ascii_slice(s, 0, 1);
    law_ascii_slice(s, 0, n);
    assert(s.subrange(0, n) == t);
    match e {
        WaeV::Id(x) => {
            assert(s.subrange(0, 1) =~= x);
        },
        _ => {},
    }
}

#[verifier::rlimit(60)]
proof fn lemma_parse_op(s: Seq<char>, e: WaeV)
    requires
        top_ready(s, e),
        e is Add || e is Sub,
    ensures
        spec_parse(s) == Some(e),
    decreases text_size(e), 0nat,
{
    lemma_top_basics(s, e);
    lemma_wae_text(e);
    lemma_scan_text(s, e);
    let t = wae_text(e);
    let n = t.len() as int;
    law_ascii_slice(s, 0, 1);
    let ind = wae_scan(s, start_index())->0;
    law_ascii_slice(s, ind.id as int, ind.id + 1);
    match e {
        WaeV::Add(l, r) | WaeV::Sub(l, r) => {
            let tl = wae_text(*l);
            let tr = wae_text(*r);
            lemma_wae_text(*l);
            lemma_wae_text(*r);
            let op = if e is Add { '+' } else { '-' };
            lemma_op_parts(s, 0, op, tl, tr);
            let p = 3 + tl.len() as int;
            law_ascii_slice(s, 3, p);
            law_ascii_slice(s, p + 1, p + 1 + tr.len());
            assert(s.subrange(3, p) == tl);
            assert(s.subrange(p + 1, p + 1 + tr.len()) == tr);
            lemma_parse_line(tl, *l);
            lemma_parse_line(tr, *r);
        },
        _ => {},
    }
}

#[verifier::rlimit(60)]
proof fn lemma_parse_with(s: Seq<char>, e: WaeV)
    requires
        top_ready(s, e),
        e is With,
    ensures
        spec_parse(s) == Some(e),
    decreases text_size(e), 0nat,
{
    lemma_top_basics(s, e);
    lemma_wae_text(e);
    lemma_scan_text(s, e);
    let t = wae_text(e);
    let n = t.len() as int;
    law_ascii_slice(s, 0, 1);
    if let WaeV::With(x, v, b) = e {
        let tv = wae_text(*v);
        let tb = wae_text(*b);
        lemma_wae_text(*v);
        lemma_wae_text(*b);
        lemma_with_parts(s, 0, x[0], tv, tb);
        let p = 9 + tv.len() as int;
        law_ascii_slice(s, 6, p + 1);
        law_ascii_slice(s, 7, 8);
        law_ascii_slice(s, 9, p);
        law_ascii_slice(s, p + 2, p + 2 + tb.len());
        assert(s.subrange(7, 8) =~= x);
        assert(s.subrange(9, p) == tv);
        assert(s.subrange(p + 2, p + 2 + tb.len()) == tb);
        lemma_parse_line(tv, *v);
        lemma_parse_line(tb, *b);
    }
}

} // verus!
