//! What the lazy language's parser makes of well-formed texts: the text of
//! every expression written with single spaces, including `with`, parses
//! back to that expression (a `with` to the application it stands for),
//! with or without a trailing line break.
use crate::ae::{is_line, is_literal, placed};
use crate::lfae::{
    fun_bytes, keyword_step, letter_step, lfae_scan, lfae_scan_upto, lfae_step, parts_sliceable,
    spec_parse, start_index, substring_index, LfaeScan, LfaeV,
};
use crate::text::{bytes_of, law_ascii_slice, text_slice};
use crate::wae::{
    is_letter, is_num_byte, is_num_char, minus_before, num_run_end, s_index, with_bytes,
};
use vstd::prelude::*;
use vstd::utf8::*;

verus! {

/// Expressions as written, with `with` as a form of its own.
pub enum LfaeSrc {
    Num(Seq<char>),
    Id(char),
    Add(Box<LfaeSrc>, Box<LfaeSrc>),
    Sub(Box<LfaeSrc>, Box<LfaeSrc>),
    Fun(char, Box<LfaeSrc>),
    App(Box<LfaeSrc>, Box<LfaeSrc>),
    With(char, Box<LfaeSrc>, Box<LfaeSrc>),
}

/// The expression a written form stands for: `{with {x e} b}` is
/// `{{fun {x} b} e}`.
pub open spec fn src_meaning(e: LfaeSrc) -> LfaeV
    decreases e,
{
    match e {
        LfaeSrc::Num(n) => LfaeV::Num(n),
        LfaeSrc::Id(x) => LfaeV::Id(seq![x]),
        LfaeSrc::Add(l, r) => LfaeV::Add(Box::new(src_meaning(*l)), Box::new(src_meaning(*r))),
        LfaeSrc::Sub(l, r) => LfaeV::Sub(Box::new(src_meaning(*l)), Box::new(src_meaning(*r))),
        LfaeSrc::Fun(x, b) => LfaeV::Fun(seq![x], Box::new(src_meaning(*b))),
        LfaeSrc::App(f, a) => LfaeV::App(Box::new(src_meaning(*f)), Box::new(src_meaning(*a))),
        LfaeSrc::With(x, v, b) => LfaeV::App(
            Box::new(LfaeV::Fun(seq![x], Box::new(src_meaning(*b)))),
            Box::new(src_meaning(*v)),
        ),
    }
}

/// `{fun {x} b}`.
pub open spec fn fun_text(x: char, b: Seq<char>) -> Seq<char> {
    seq!['{', 'f', 'u', 'n', ' ', '{', x, '}', ' '] + b + seq!['}']
}

/// `{f a}`.
pub open spec fn app_text(f: Seq<char>, a: Seq<char>) -> Seq<char> {
    seq!['{'] + f + seq![' '] + a + seq!['}']
}

/// `{with {x v} b}`.
pub open spec fn with_text(x: char, v: Seq<char>, b: Seq<char>) -> Seq<char> {
    seq!['{', 'w', 'i', 't', 'h', ' ', '{', x, ' '] + v + seq!['}', ' '] + b + seq!['}']
}

/// `{op l r}`.
pub open spec fn op_text(op: char, l: Seq<char>, r: Seq<char>) -> Seq<char> {
    seq!['{', op, ' '] + l + seq![' '] + r + seq!['}']
}

/// The text of a written form, with single spaces.
pub open spec fn src_text(e: LfaeSrc) -> Seq<char>
    decreases e,
{
    match e {
        LfaeSrc::Num(n) => n,
        LfaeSrc::Id(x) => seq![x],
        LfaeSrc::Add(l, r) => op_text('+', src_text(*l), src_text(*r)),
        LfaeSrc::Sub(l, r) => op_text('-', src_text(*l), src_text(*r)),
        LfaeSrc::Fun(x, b) => fun_text(x, src_text(*b)),
        LfaeSrc::App(f, a) => app_text(src_text(*f), src_text(*a)),
        LfaeSrc::With(x, v, b) => with_text(x, src_text(*v), src_text(*b)),
    }
}

/// A literal that begins with a minus sign.
pub open spec fn is_negative_literal(e: LfaeSrc) -> bool {
    e matches LfaeSrc::Num(n) && n.len() > 0 && n[0] == '-'
}

/// A written form the parser reads as written: number literals,
/// one-letter identifiers and parameters; the function and the argument of
/// an application are no negative literals (their sign would be read as a
/// subtraction), and the named expression of a `with` is no identifier.
pub open spec fn src_wf(e: LfaeSrc) -> bool
    decreases e,
{
    match e {
        LfaeSrc::Num(n) => is_literal(n),
        LfaeSrc::Id(x) => is_letter(x),
        LfaeSrc::Add(l, r) => src_wf(*l) && src_wf(*r),
        LfaeSrc::Sub(l, r) => src_wf(*l) && src_wf(*r),
        LfaeSrc::Fun(x, b) => is_letter(x) && src_wf(*b),
        LfaeSrc::App(f, a) => src_wf(*f) && src_wf(*a) && !is_negative_literal(*f)
            && !is_negative_literal(*a),
        LfaeSrc::With(x, v, b) => is_letter(x) && src_wf(*v) && !(*v is Id) && src_wf(*b),
    }
}

/// The scan over positions `i` to `j` of `s`, from the state `st`.
pub open spec fn lfae_run(s: Seq<char>, st: LfaeScan, i: int, j: int) -> Option<LfaeScan>
    decreases j - i,
{
    if i >= j {
        Some(st)
    } else {
        match lfae_step(s, i, st) {
            Some(st2) => lfae_run(s, st2, i + 1, j),
            None => None,
        }
    }
}

proof fn lemma_run_split(s: Seq<char>, st: LfaeScan, i: int, j: int, k: int)
    requires
        i <= j <= k,
    ensures
        lfae_run(s, st, i, k) == match lfae_run(s, st, i, j) {
            Some(m) => lfae_run(s, m, j, k),
            None => None,
        },
    decreases j - i,
{
    if i < j {
        if let Some(st2) = lfae_step(s, i, st) {
            lemma_run_split(s, st2, i + 1, j, k);
        }
    }
}

proof fn lemma_upto_run(s: Seq<char>, st: LfaeScan, n: nat)
    ensures
        lfae_scan_upto(s, st, n) == lfae_run(s, st, 0, n as int),
    decreases n,
{
    if n > 0 {
        lemma_upto_run(s, st, (n - 1) as nat);
        lemma_run_split(s, st, 0, n - 1, n as int);
        if let Some(m) = lfae_run(s, st, 0, n - 1) {
            assert(lfae_run(s, m, n - 1, n as int) == match lfae_step(s, n - 1, m) {
                Some(st2) => lfae_run(s, st2, n as int, n as int),
                None => None,
            });
        }
    }
}

proof fn lemma_run_one(s: Seq<char>, st: LfaeScan, i: int)
    ensures
        lfae_run(s, st, i, i + 1) == lfae_step(s, i, st),
{
    if let Some(st2) = lfae_step(s, i, st) {
        assert(lfae_run(s, st2, i + 1, i + 1) == Some(st2));
    }
}

/// A run that goes from `a` through `m` to `b`.
proof fn lemma_run_join(
    s: Seq<char>,
    st: LfaeScan,
    mid: LfaeScan,
    fin: LfaeScan,
    a: int,
    m: int,
    b: int,
)
    requires
        a <= m <= b,
        lfae_run(s, st, a, m) == Some(mid),
        lfae_run(s, mid, m, b) == Some(fin),
    ensures
        lfae_run(s, st, a, b) == Some(fin),
{
    lemma_run_split(s, st, a, m, b);
}

/// A single step as a run.
proof fn lemma_run_step(s: Seq<char>, st: LfaeScan, fin: LfaeScan, i: int)
    requires
        lfae_step(s, i, st) == Some(fin),
    ensures
        lfae_run(s, st, i, i + 1) == Some(fin),
{
    lemma_run_one(s, st, i);
}

proof fn lemma_run_still(s: Seq<char>, st: LfaeScan, i: int, j: int)
    requires
        i <= j,
        forall|k: int| i <= k < j ==> #[trigger] lfae_step(s, k, st) == Some(st),
    ensures
        lfae_run(s, st, i, j) == Some(st),
    decreases j - i,
{
    if i < j {
        lemma_run_still(s, st, i + 1, j);
    }
}

/// In an ASCII text every character is one byte.
proof fn lemma_ascii_bytes(s: Seq<char>)
    requires
        is_ascii_chars(s),
    ensures
        bytes_of(s).len() == s.len(),
        forall|k: int| 0 <= k < s.len() ==> #[trigger] bytes_of(s)[k] == s[k] as u8,
{
    is_ascii_chars_encode_utf8(s);
    is_ascii_chars_nat_bound(s);
}

/// The characters at `k`, `k + 1`, ... compared with a keyword of `len`
/// bytes, where the cut is within the text.
proof fn lemma_keyword_cut(s: Seq<char>, k: int, len: int)
    requires
        is_ascii_chars(s),
        0 <= k,
        0 <= len,
        k + len <= s.len(),
    ensures
        is_char_boundary(bytes_of(s), k),
        is_char_boundary(bytes_of(s), k + len),
{
    law_ascii_slice(s, k, k + len);
}

proof fn lemma_src_text(e: LfaeSrc)
    requires
        src_wf(e),
    ensures
        is_ascii_chars(src_text(e)),
        src_text(e).len() >= 1,
        e is Num ==> forall|m: int|
            0 <= m < src_text(e).len() ==> #[trigger] src_text(e)[m] == '-' || is_num_char(
                src_text(e)[m],
            ),
        e is Num ==> (src_text(e)[0] == '-' <==> is_negative_literal(e)),
        e is Id ==> src_text(e).len() == 1 && is_letter(src_text(e)[0]),
        !(e is Num) && !(e is Id) ==> src_text(e)[0] == '{',
    decreases e,
{
    let t = src_text(e);
    match e {
        LfaeSrc::Num(n) => {
            assert forall|m: int| 0 <= m < n.len() implies '\0' <= #[trigger] n[m] <= '\u{7f}' by {
                if m > 0 {
                    assert(is_num_char(n[m]));
                }
            }
            assert forall|m: int| 0 <= m < n.len() implies #[trigger] n[m] == '-' || is_num_char(
                n[m],
            ) by {}
        },
        LfaeSrc::Id(x) => {
            assert(t == seq![x]);
            assert(is_ascii_chars(t)) by {
                assert forall|m: int| 0 <= m < t.len() implies '\0' <= #[trigger] t[m] <= '\u{7f}' by {}
            }
        },
        LfaeSrc::Add(l, r) | LfaeSrc::Sub(l, r) | LfaeSrc::App(l, r) => {
            lemma_src_text(*l);
            lemma_src_text(*r);
            let tl = src_text(*l);
            let tr = src_text(*r);
            let off = if e is App { 1int } else { 3int };
            if e is App {
                assert(t == app_text(tl, tr));
            } else if e is Add {
                assert(t == op_text('+', tl, tr));
            } else {
                assert(t == op_text('-', tl, tr));
            }
            assert(t.len() == tl.len() + tr.len() + off + 2);
            assert forall|m: int| 0 <= m < t.len() implies '\0' <= #[trigger] t[m] <= '\u{7f}' by {
                if off <= m < off + tl.len() {
                    assert(t[m] == tl[m - off]);
                } else if off + 1 + tl.len() <= m < off + 1 + tl.len() + tr.len() {
                    assert(t[m] == tr[m - off - 1 - tl.len()]);
                }
            }
        },
        LfaeSrc::Fun(x, b) => {
            lemma_src_text(*b);
            let tb = src_text(*b);
            assert(t == fun_text(x, tb));
            assert forall|m: int| 0 <= m < t.len() implies '\0' <= #[trigger] t[m] <= '\u{7f}' by {
                if 9 <= m < 9 + tb.len() {
                    assert(t[m] == tb[m - 9]);
                }
            }
        },
        LfaeSrc::With(x, v, b) => {
            lemma_src_text(*v);
            lemma_src_text(*b);
            let tv = src_text(*v);
            let tb = src_text(*b);
            assert(t == with_text(x, tv, tb));
            assert forall|m: int| 0 <= m < t.len() implies '\0' <= #[trigger] t[m] <= '\u{7f}' by {
                if 9 <= m < 9 + tv.len() {
                    assert(t[m] == tv[m - 9]);
                } else if 11 + tv.len() <= m < 11 + tv.len() + tb.len() {
                    assert(t[m] == tb[m - 11 - tv.len()]);
                }
            }
        },
    }
}

proof fn lemma_placed_part(s: Seq<char>, i: int, t: Seq<char>, a: int, p: Seq<char>)
    requires
        placed(s, i, t),
        0 <= a,
        a + p.len() <= t.len(),
        t.subrange(a, a + p.len()) == p,
    ensures
        placed(s, i + a, p),
{
    assert(s.subrange(i + a, i + a + p.len()) =~= p) by {
        assert forall|m: int| 0 <= m < p.len() implies s.subrange(i + a, i + a + p.len())[m]
            == p[m] by {
            assert(s[i + a + m] == s.subrange(i, i + t.len())[a + m]);
            assert(p[m] == t.subrange(a, a + p.len())[m]);
        }
    }
}

proof fn lemma_placed_char(s: Seq<char>, i: int, t: Seq<char>, m: int)
    requires
        placed(s, i, t),
        0 <= m < t.len(),
    ensures
        s[i + m] == t[m],
{
    assert(s[i + m] == s.subrange(i, i + t.len())[m]);
}

/// The parts of `{op l r}` or `{f a}`: the operator (if any) and the two
/// operands, where they stand.
proof fn lemma_pair_parts(s: Seq<char>, i: int, t: Seq<char>, off: int, l: Seq<char>, r: Seq<char>)
    requires
        placed(s, i, t),
        off == 1 || off == 3,
        t == (if off == 1 {
            app_text(l, r)
        } else {
            op_text(t[1], l, r)
        }),
    ensures
        t.len() == l.len() + r.len() + off + 2,
        s[i] == '{',
        off == 3 ==> s[i + 1] == t[1] && s[i + 2] == ' ',
        placed(s, i + off, l),
        s[i + off + l.len()] == ' ',
        placed(s, i + off + 1 + l.len(), r),
        s[i + off + 1 + l.len() + r.len()] == '}',
{
    let a = l.len() as int;
    let b = r.len() as int;
    assert(t.len() == a + b + off + 2);
    lemma_placed_char(s, i, t, 0);
    if off == 3 {
        lemma_placed_char(s, i, t, 1);
        lemma_placed_char(s, i, t, 2);
    }
    lemma_placed_char(s, i, t, off + a);
    lemma_placed_char(s, i, t, off + 1 + a + b);
    assert(t.subrange(off, off + a) =~= l);
    assert(t.subrange(off + 1 + a, off + 1 + a + b) =~= r);
    lemma_placed_part(s, i, t, off, l);
    lemma_placed_part(s, i, t, off + 1 + a, r);
}

/// The parts of `{fun {x} b}`.
proof fn lemma_fun_parts(s: Seq<char>, i: int, x: char, b: Seq<char>)
    requires
        placed(s, i, fun_text(x, b)),
    ensures
        fun_text(x, b).len() == b.len() + 10,
        s[i] == '{' && s[i + 1] == 'f' && s[i + 2] == 'u' && s[i + 3] == 'n',
        s[i + 4] == ' ' && s[i + 5] == '{' && s[i + 6] == x && s[i + 7] == '}' && s[i + 8] == ' ',
        placed(s, i + 9, b),
        s[i + 9 + b.len()] == '}',
{
    let t = fun_text(x, b);
    let n = b.len() as int;
    assert forall|m: int| 0 <= m < 9 implies s[i + m] == #[trigger] t[m] by {
        lemma_placed_char(s, i, t, m);
    }
    assert(s[i] == t[0] && s[i + 1] == t[1] && s[i + 2] == t[2] && s[i + 3] == t[3]);
    assert(s[i + 4] == t[4] && s[i + 5] == t[5] && s[i + 6] == t[6] && s[i + 7] == t[7]);
    assert(s[i + 8] == t[8]);
    lemma_placed_char(s, i, t, 9 + n);
    assert(t.subrange(9, 9 + n) =~= b);
    lemma_placed_part(s, i, t, 9, b);
}

/// The parts of `{with {x v} b}`.
proof fn lemma_with_parts(s: Seq<char>, i: int, x: char, v: Seq<char>, b: Seq<char>)
    requires
        placed(s, i, with_text(x, v, b)),
    ensures
        with_text(x, v, b).len() == v.len() + b.len() + 12,
        s[i] == '{' && s[i + 1] == 'w' && s[i + 2] == 'i' && s[i + 3] == 't' && s[i + 4] == 'h',
        s[i + 5] == ' ' && s[i + 6] == '{' && s[i + 7] == x && s[i + 8] == ' ',
        placed(s, i + 9, v),
        s[i + 9 + v.len()] == '}',
        s[i + 10 + v.len()] == ' ',
        placed(s, i + 11 + v.len(), b),
        s[i + 11 + v.len() + b.len()] == '}',
{
    let t = with_text(x, v, b);
    let n = v.len() as int;
    let m2 = b.len() as int;
    assert forall|m: int| 0 <= m < 9 implies s[i + m] == #[trigger] t[m] by {
        lemma_placed_char(s, i, t, m);
    }
    assert(s[i] == t[0] && s[i + 1] == t[1] && s[i + 2] == t[2] && s[i + 3] == t[3]);
    assert(s[i + 4] == t[4] && s[i + 5] == t[5] && s[i + 6] == t[6] && s[i + 7] == t[7]);
    assert(s[i + 8] == t[8]);
    lemma_placed_char(s, i, t, 9 + n);
    lemma_placed_char(s, i, t, 10 + n);
    lemma_placed_char(s, i, t, 11 + n + m2);
    assert(t.subrange(9, 9 + n) =~= v);
    assert(t.subrange(11 + n, 11 + n + m2) =~= b);
    lemma_placed_part(s, i, t, 9, v);
    lemma_placed_part(s, i, t, 11 + n, b);
}

/// A letter followed by a space or a closing brace starts no keyword.
proof fn lemma_letter_alone(s: Seq<char>, k: int, st: LfaeScan)
    requires
        is_ascii_chars(s),
        0 <= k,
        k + 1 < s.len(),
        is_letter(s[k]),
        s[k + 1] == ' ' || s[k + 1] == '}',
        st.skip == 0,
    ensures
        lfae_step(s, k, st) == Some(letter_step(k, st)),
{
    lemma_ascii_bytes(s);
    let b = bytes_of(s);
    assert(b[k + 1] == s[k + 1] as u8);
    if s[k] == 'f' && b.len() > k + 3 {
        lemma_keyword_cut(s, k, 3);
        assert(b.subrange(k, k + 3)[1] != fun_bytes()[1]);
    }
    if s[k] == 'w' && b.len() > k + 4 {
        lemma_keyword_cut(s, k, 4);
        assert(b.subrange(k, k + 4)[1] != with_bytes()[1]);
    }
}

/// The keyword `fun` followed by more text.
proof fn lemma_fun_keyword(s: Seq<char>, k: int, st: LfaeScan)
    requires
        is_ascii_chars(s),
        0 <= k,
        k + 3 < s.len(),
        s[k] == 'f' && s[k + 1] == 'u' && s[k + 2] == 'n',
        st.skip == 0,
    ensures
        lfae_step(s, k, st) == Some(keyword_step(st, 'f', 3)),
{
    lemma_ascii_bytes(s);
    let b = bytes_of(s);
    lemma_keyword_cut(s, k, 3);
    assert(b[k] == s[k] as u8 && b[k + 1] == s[k + 1] as u8 && b[k + 2] == s[k + 2] as u8);
    assert(b.subrange(k, k + 3) =~= fun_bytes());
}

/// The keyword `with` followed by more text.
proof fn lemma_with_keyword(s: Seq<char>, k: int, st: LfaeScan)
    requires
        is_ascii_chars(s),
        0 <= k,
        k + 4 < s.len(),
        s[k] == 'w' && s[k + 1] == 'i' && s[k + 2] == 't' && s[k + 3] == 'h',
        st.skip == 0,
    ensures
        lfae_step(s, k, st) == Some(keyword_step(st, 'w', 4)),
{
    lemma_ascii_bytes(s);
    let b = bytes_of(s);
    lemma_keyword_cut(s, k, 4);
    assert(b[k] == s[k] as u8 && b[k + 1] == s[k + 1] as u8 && b[k + 2] == s[k + 2] as u8 && b[k
        + 3] == s[k + 3] as u8);
    assert(b.subrange(k, k + 4) =~= with_bytes());
}

/// Passing over the letters of a keyword after it is met.
proof fn lemma_skip_keyword(s: Seq<char>, st: LfaeScan, k: int, n: nat)
    requires
        0 <= k,
        k + n <= s.len(),
    ensures
        lfae_run(s, LfaeScan { skip: n, ..st }, k, k + n) == Some(LfaeScan { skip: 0, ..st }),
    decreases n,
{
    if n > 0 {
        let st1 = LfaeScan { skip: n, ..st };
        let st2 = LfaeScan { skip: (n - 1) as nat, ..st };
        lemma_run_step(s, st1, st2, k);
        lemma_skip_keyword(s, st, k + 1, (n - 1) as nat);
        lemma_run_join(s, st1, st2, LfaeScan { skip: 0, ..st }, k, k + 1, k + n);
    }
}

/// Two or more braces deep inside the outermost form, with nothing being
/// read that the text could change: no left number in progress, no keyword
/// being passed over, the identifier of a `with` or `fun` found, and (at
/// depth two of a `with`) its named expression found.
pub open spec fn quiet(st: LfaeScan) -> bool {
    &&& st.depth >= 2
    &&& st.lhs_write != 1
    &&& st.skip == 0
    &&& (st.ind.oper == 'w' || st.ind.oper == 'f') ==> st.ind.id != 0
    &&& (st.depth == 2 && st.ind.oper == 'w') ==> st.ind.id_expr_start != 0
        && st.ind.id_expr_end != 0
}

/// The number of nodes of a written form.
pub open spec fn src_size(e: LfaeSrc) -> nat
    decreases e,
{
    match e {
        LfaeSrc::Num(_) => 1,
        LfaeSrc::Id(_) => 1,
        LfaeSrc::Add(l, r) => 1 + src_size(*l) + src_size(*r),
        LfaeSrc::Sub(l, r) => 1 + src_size(*l) + src_size(*r),
        LfaeSrc::Fun(_, b) => 1 + src_size(*b),
        LfaeSrc::App(f, a) => 1 + src_size(*f) + src_size(*a),
        LfaeSrc::With(_, v, b) => 1 + src_size(*v) + src_size(*b),
    }
}

/// Where `e` can be read quietly at `i` of `s`.
pub open spec fn inner_ready(s: Seq<char>, i: int, e: LfaeSrc, st: LfaeScan) -> bool {
    &&& src_wf(e)
    &&& is_ascii_chars(s)
    &&& s.len() < usize::MAX
    &&& placed(s, i, src_text(e))
    &&& i + src_text(e).len() < s.len()
    &&& (s[i + src_text(e).len()] == ' ' || s[i + src_text(e).len()] == '}')
    &&& quiet(st)
}

/// What lies inside the braces of a bracketed written form stands in `s`
/// from `i` on, where the scan is quiet one brace deeper.
pub open spec fn contents_ready(s: Seq<char>, i: int, e: LfaeSrc, st1: LfaeScan) -> bool {
    &&& src_wf(e)
    &&& !(e is Num) && !(e is Id)
    &&& is_ascii_chars(s)
    &&& s.len() < usize::MAX
    &&& placed(s, i, src_text(e))
    &&& quiet(st1)
}

/// A well-formed expression read where the scan is quiet changes nothing.
proof fn lemma_inner(s: Seq<char>, i: int, e: LfaeSrc, st: LfaeScan)
    requires
        inner_ready(s, i, e, st),
    ensures
        lfae_run(s, st, i, i + src_text(e).len()) == Some(st),
    decreases src_size(e), 2nat,
{
    lemma_src_text(e);
    lemma_ascii_bytes(s);
    let t = src_text(e);
    let n = t.len() as int;
    match e {
        LfaeSrc::Num(_) => {
            assert forall|k: int| i <= k < i + n implies #[trigger] lfae_step(s, k, st) == Some(st) by {
                lemma_placed_char(s, i, t, k - i);
            }
            lemma_run_still(s, st, i, i + n);
        },
        LfaeSrc::Id(x) => {
            lemma_placed_char(s, i, t, 0);
            lemma_letter_alone(s, i, st);
            lemma_run_step(s, st, st, i);
        },
        _ => {
            let st1 = LfaeScan { depth: st.depth + 1, ..st };
            lemma_placed_char(s, i, t, 0);
            lemma_contents_last(s, i, e);
            lemma_run_step(s, st, st1, i);
            lemma_contents(s, i, e, st1);
            lemma_run_step(s, st1, st, i + n - 1);
            lemma_run_join(s, st, st1, st1, i, i + 1, i + n - 1);
            lemma_run_join(s, st, st1, st, i, i + n - 1, i + n);
        },
    }
}

/// A bracketed written form ends with its closing brace and is at least
/// five characters long.
proof fn lemma_contents_last(s: Seq<char>, i: int, e: LfaeSrc)
    requires
        src_wf(e),
        !(e is Num) && !(e is Id),
        placed(s, i, src_text(e)),
    ensures
        src_text(e).len() >= 5,
        s[i + src_text(e).len() - 1] == '}',
{
    let t = src_text(e);
    match e {
        LfaeSrc::Add(l, r) | LfaeSrc::Sub(l, r) | LfaeSrc::App(l, r) => {
            lemma_src_text(*l);
            lemma_src_text(*r);
            let off = if e is App { 1int } else { 3int };
            if e is App {
                assert(t == app_text(src_text(*l), src_text(*r)));
            } else if e is Add {
                assert(t == op_text('+', src_text(*l), src_text(*r)));
            } else {
                assert(t == op_text('-', src_text(*l), src_text(*r)));
            }
            lemma_pair_parts(s, i, t, off, src_text(*l), src_text(*r));
        },
        LfaeSrc::Fun(x, b) => {
            assert(t == fun_text(x, src_text(*b)));
            lemma_fun_parts(s, i, x, src_text(*b));
        },
        LfaeSrc::With(x, v, b) => {
            assert(t == with_text(x, src_text(*v), src_text(*b)));
            lemma_with_parts(s, i, x, src_text(*v), src_text(*b));
        },
        _ => {},
    }
}

/// Inside the braces of a bracketed form, where the scan is quiet, nothing
/// changes.
proof fn lemma_contents(s: Seq<char>, i: int, e: LfaeSrc, st1: LfaeScan)
    requires
        contents_ready(s, i, e, st1),
    ensures
        lfae_run(s, st1, i + 1, i + src_text(e).len() - 1) == Some(st1),
    decreases src_size(e), 1nat,
{
    if e is Fun {
        lemma_contents_fun(s, i, e, st1);
    } else if e is With {
        lemma_contents_with(s, i, e, st1);
    } else {
        lemma_contents_pair(s, i, e, st1);
    }
}

proof fn lemma_contents_pair(s: Seq<char>, i: int, e: LfaeSrc, st1: LfaeScan)
    requires
        contents_ready(s, i, e, st1),
        e is Add || e is Sub || e is App,
    ensures
        lfae_run(s, st1, i + 1, i + src_text(e).len() - 1) == Some(st1),
    decreases src_size(e), 0nat,
{
    lemma_src_text(e);
    lemma_ascii_bytes(s);
    let t = src_text(e);
    let n = t.len() as int;
    match e {
        LfaeSrc::Add(l, r) | LfaeSrc::Sub(l, r) | LfaeSrc::App(l, r) => {
            let tl = src_text(*l);
            let tr = src_text(*r);
            let off = if e is App { 1int } else { 3int };
            if e is App {
                assert(t == app_text(tl, tr));
            } else if e is Add {
                assert(t == op_text('+', tl, tr));
            } else {
                assert(t == op_text('-', tl, tr));
            }
            lemma_pair_parts(s, i, t, off, tl, tr);
            let p = i + off + tl.len();
            let q = p + 1 + tr.len();
            if off == 3 {
                lemma_run_step(s, st1, st1, i + 1);
                lemma_run_step(s, st1, st1, i + 2);
                lemma_run_join(s, st1, st1, st1, i + 1, i + 2, i + 3);
            }
            lemma_src_text(*l);
            lemma_src_text(*r);
            lemma_inner(s, i + off, *l, st1);
            lemma_run_join(s, st1, st1, st1, i + 1, i + off, p);
            lemma_run_step(s, st1, st1, p);
            lemma_run_join(s, st1, st1, st1, i + 1, p, p + 1);
            lemma_inner(s, p + 1, *r, st1);
            lemma_run_join(s, st1, st1, st1, i + 1, p + 1, q);
        },
        _ => {},
    }
}

proof fn lemma_contents_fun(s: Seq<char>, i: int, e: LfaeSrc, st1: LfaeScan)
    requires
        contents_ready(s, i, e, st1),
        e is Fun,
    ensures
        lfae_run(s, st1, i + 1, i + src_text(e).len() - 1) == Some(st1),
    decreases src_size(e), 0nat,
{
    lemma_src_text(e);
    lemma_ascii_bytes(s);
    let t = src_text(e);
    let n = t.len() as int;
    match e {
        LfaeSrc::Fun(x, b) => {
            let tb = src_text(*b);
            let st2 = LfaeScan { depth: st1.depth + 1, ..st1 };
            assert(t == fun_text(x, tb));
            lemma_fun_parts(s, i, x, tb);
            lemma_src_text(*b);
            lemma_fun_keyword(s, i + 1, st1);
            assert(keyword_step(st1, 'f', 3) == LfaeScan { skip: 2, ..st1 });
            lemma_run_step(s, st1, LfaeScan { skip: 2, ..st1 }, i + 1);
            lemma_skip_keyword(s, st1, i + 2, 2);
            lemma_run_join(s, st1, LfaeScan { skip: 2, ..st1 }, st1, i + 1, i + 2, i + 4);
            lemma_run_step(s, st1, st1, i + 4);
            lemma_run_step(s, st1, st2, i + 5);
            lemma_letter_alone(s, i + 6, st2);
            lemma_run_step(s, st2, st2, i + 6);
            lemma_run_step(s, st2, st1, i + 7);
            lemma_run_step(s, st1, st1, i + 8);
            lemma_run_join(s, st1, st1, st1, i + 1, i + 4, i + 5);
            lemma_run_join(s, st1, st1, st2, i + 1, i + 5, i + 6);
            lemma_run_join(s, st1, st2, st2, i + 1, i + 6, i + 7);
            lemma_run_join(s, st1, st2, st1, i + 1, i + 7, i + 8);
            lemma_run_join(s, st1, st1, st1, i + 1, i + 8, i + 9);
            lemma_inner(s, i + 9, *b, st1);
            lemma_run_join(s, st1, st1, st1, i + 1, i + 9, i + 9 + tb.len());
        },
        _ => {},
    }
}

proof fn lemma_contents_with(s: Seq<char>, i: int, e: LfaeSrc, st1: LfaeScan)
    requires
        contents_ready(s, i, e, st1),
        e is With,
    ensures
        lfae_run(s, st1, i + 1, i + src_text(e).len() - 1) == Some(st1),
    decreases src_size(e), 0nat,
{
    lemma_src_text(e);
    lemma_ascii_bytes(s);
    let t = src_text(e);
    let n = t.len() as int;
    match e {
        LfaeSrc::With(x, v, b) => {
            let tv = src_text(*v);
            let tb = src_text(*b);
            let st2 = LfaeScan { depth: st1.depth + 1, ..st1 };
            assert(t == with_text(x, tv, tb));
            lemma_with_parts(s, i, x, tv, tb);
            lemma_src_text(*v);
            lemma_src_text(*b);
            let p = i + 9 + tv.len();
            let q = p + 2 + tb.len();
            lemma_with_keyword(s, i + 1, st1);
            assert(keyword_step(st1, 'w', 4) == LfaeScan { skip: 3, ..st1 });
            lemma_run_step(s, st1, LfaeScan { skip: 3, ..st1 }, i + 1);
            lemma_skip_keyword(s, st1, i + 2, 3);
            lemma_run_join(s, st1, LfaeScan { skip: 3, ..st1 }, st1, i + 1, i + 2, i + 5);
            lemma_run_step(s, st1, st1, i + 5);
            lemma_run_step(s, st1, st2, i + 6);
            lemma_letter_alone(s, i + 7, st2);
            lemma_run_step(s, st2, st2, i + 7);
            lemma_run_step(s, st2, st2, i + 8);
            lemma_run_join(s, st1, st1, st1, i + 1, i + 5, i + 6);
            lemma_run_join(s, st1, st1, st2, i + 1, i + 6, i + 7);
            lemma_run_join(s, st1, st2, st2, i + 1, i + 7, i + 8);
            lemma_run_join(s, st1, st2, st2, i + 1, i + 8, i + 9);
            lemma_inner(s, i + 9, *v, st2);
            lemma_run_join(s, st1, st2, st2, i + 1, i + 9, p);
            lemma_run_step(s, st2, st1, p);
            lemma_run_join(s, st1, st2, st1, i + 1, p, p + 1);
            lemma_run_step(s, st1, st1, p + 1);
            lemma_run_join(s, st1, st1, st1, i + 1, p + 1, p + 2);
            lemma_inner(s, p + 2, *b, st1);
            lemma_run_join(s, st1, st1, st1, i + 1, p + 2, q);
        },
        _ => {},
    }
}

/// In an ASCII text, the byte before a position is a minus sign exactly
/// when the character is.
proof fn lemma_minus_ascii(s: Seq<char>, k: int)
    requires
        is_ascii_chars(s),
        0 < k <= s.len(),
    ensures
        minus_before(bytes_of(s), k) <==> s[k - 1] == '-',
{
    lemma_ascii_bytes(s);
    assert(bytes_of(s)[k - 1] == s[k - 1] as u8);
}

/// The state after the digits of a literal that starts at `i` and whose last
/// digit so far is at `last`, read as the left operand (`left`) or the right
/// one.
pub open spec fn literal_state(st: LfaeScan, i: int, last: int, left: bool) -> LfaeScan {
    if left {
        LfaeScan {
            ind: s_index { lhs_start: i as usize, lhs_end: last as usize, ..st.ind },
            lhs_write: 1,
            ..st
        }
    } else {
        LfaeScan { ind: s_index { rhs_start: i as usize, rhs_end: last as usize, ..st.ind }, ..st }
    }
}

proof fn lemma_digits(s: Seq<char>, i: int, j0: int, n: int, st: LfaeScan, left: bool)
    requires
        is_ascii_chars(s),
        s.len() < usize::MAX,
        0 <= i,
        1 <= n,
        j0 == i || j0 == i + 1,
        j0 + n <= s.len(),
        j0 == i + 1 ==> s[i] == '-',
        j0 == i && i > 0 ==> s[i - 1] != '-',
        forall|k: int| j0 <= k < j0 + n ==> is_num_char(#[trigger] s[k]),
        st.depth <= 1,
        st.skip == 0,
        left ==> st.lhs_write == 0 && st.ind.lhs_start == 0,
        !left ==> st.lhs_write == 2 && st.ind.rhs_start == 0 && i >= 1,
    ensures
        lfae_run(s, st, j0, j0 + n) == Some(literal_state(st, i, j0 + n - 1, left)),
    decreases n,
{
    let k = j0 + n - 1;
    assert(is_num_char(s[k]));
    if k > 0 {
        lemma_minus_ascii(s, k);
    }
    if n == 1 {
        lemma_run_one(s, st, j0);
    } else {
        lemma_digits(s, i, j0, n - 1, st, left);
        assert(is_num_char(s[k - 1]));
        lemma_run_split(s, st, j0, k, k + 1);
        lemma_run_one(s, literal_state(st, i, k - 1, left), k);
    }
}

/// A literal read at depth at most one, as the left or the right operand,
/// where its sign cannot be taken for an operator.
proof fn lemma_literal(s: Seq<char>, i: int, lit: Seq<char>, st: LfaeScan, left: bool)
    requires
        is_literal(lit),
        is_ascii_chars(s),
        s.len() < usize::MAX,
        placed(s, i, lit),
        i > 0 ==> s[i - 1] != '-',
        st.depth <= 1,
        st.skip == 0,
        st.depth == 1 && lit[0] == '-' ==> st.ind.oper != ' ',
        left ==> st.lhs_write == 0 && st.ind.lhs_start == 0,
        !left ==> st.lhs_write == 2 && st.ind.rhs_start == 0 && i >= 1,
    ensures
        lfae_run(s, st, i, i + lit.len()) == Some(literal_state(st, i, i + lit.len() - 1, left)),
{
    let n = lit.len() as int;
    assert forall|m: int| 0 <= m < n implies s[i + m] == #[trigger] lit[m] by {
        lemma_placed_char(s, i, lit, m);
    }
    if lit[0] == '-' {
        assert(s[i] == '-');
        lemma_run_one(s, st, i);
        assert(lfae_step(s, i, st) == Some(st));
        assert forall|k: int| i + 1 <= k < i + 1 + (n - 1) implies is_num_char(#[trigger] s[k]) by {
            assert(s[k] == lit[k - i]);
        }
        lemma_digits(s, i, i + 1, n - 1, st, left);
        lemma_run_split(s, st, i, i + 1, i + n);
    } else {
        assert forall|k: int| i <= k < i + n implies is_num_char(#[trigger] s[k]) by {
            assert(s[k] == lit[k - i]);
        }
        lemma_digits(s, i, i, n, st, left);
    }
}

/// The state after an operand from `i` to `last` at depth one.
pub open spec fn operand_state(st: LfaeScan, i: int, last: int, left: bool, is_num: bool) -> LfaeScan {
    if is_num || !left {
        literal_state(st, i, last, left)
    } else {
        LfaeScan {
            ind: s_index { lhs_start: i as usize, lhs_end: last as usize, ..st.ind },
            lhs_write: 2,
            ..st
        }
    }
}

/// Where `e` can be read at `i` of `s` as an operand of the outermost form.
pub open spec fn operand_ready(s: Seq<char>, i: int, e: LfaeSrc, st: LfaeScan, left: bool) -> bool {
    &&& src_wf(e)
    &&& is_ascii_chars(s)
    &&& s.len() < usize::MAX
    &&& placed(s, i, src_text(e))
    &&& i >= 1
    &&& s[i - 1] != '-'
    &&& i + src_text(e).len() < s.len()
    &&& (s[i + src_text(e).len()] == ' ' || s[i + src_text(e).len()] == '}')
    &&& st.depth == 1
    &&& st.skip == 0
    &&& (st.ind.oper == ' ' ==> !is_negative_literal(e))
    &&& ((st.ind.oper == 'w' || st.ind.oper == 'f') ==> st.ind.id != 0)
    &&& (st.ind.oper == 'w' ==> st.ind.id_expr_start != 0 && st.ind.id_expr_end != 0)
    &&& (left ==> st.lhs_write == 0 && st.ind.lhs_start == 0 && st.ind.lhs_end == 0)
    &&& (!left ==> st.lhs_write == 2 && st.ind.rhs_start == 0 && st.ind.lhs_start != 0
        && st.ind.lhs_end != 0)
}

/// An operand of the outermost form, read as the left or the right one.
proof fn lemma_operand(s: Seq<char>, i: int, e: LfaeSrc, st: LfaeScan, left: bool)
    requires
        operand_ready(s, i, e, st, left),
    ensures
        lfae_run(s, st, i, i + src_text(e).len()) == Some(
            operand_state(st, i, i + src_text(e).len() - 1, left, e is Num),
        ),
{
    lemma_src_text(e);
    let t = src_text(e);
    let n = t.len() as int;
    match e {
        LfaeSrc::Num(lit) => {
            lemma_literal(s, i, lit, st, left);
        },
        LfaeSrc::Id(x) => {
            lemma_placed_char(s, i, t, 0);
            lemma_letter_alone(s, i, st);
            lemma_run_step(s, st, operand_state(st, i, i, left, false), i);
        },
        _ => {
            let ind1 = if left {
                s_index { lhs_start: i as usize, ..st.ind }
            } else {
                s_index { rhs_start: i as usize, ..st.ind }
            };
            let st1 = LfaeScan { ind: ind1, depth: 2, ..st };
            lemma_placed_char(s, i, t, 0);
            lemma_contents_last(s, i, e);
            lemma_run_step(s, st, st1, i);
            lemma_contents(s, i, e, st1);
            lemma_run_step(s, st1, operand_state(st, i, i + n - 1, left, false), i + n - 1);
            lemma_run_join(s, st, st1, st1, i, i + 1, i + n - 1);
            lemma_run_join(
                s,
                st,
                st1,
                operand_state(st, i, i + n - 1, left, false),
                i,
                i + n - 1,
                i + n,
            );
        },
    }
}

proof fn lemma_run_end(b: Seq<u8>, j: int, stop: int)
    requires
        1 <= j <= stop < b.len(),
        forall|m: int| j <= m < stop ==> is_num_byte(#[trigger] b[m]),
        !is_num_byte(b[stop]),
    ensures
        num_run_end(b, j, j - 1) == stop - 1,
    decreases stop - j,
{
    if j < stop {
        lemma_run_end(b, j + 1, stop);
    }
}

/// Where the named expression of an outermost `with` can be read at `i`.
pub open spec fn named_ready(s: Seq<char>, i: int, e: LfaeSrc, st: LfaeScan) -> bool {
    &&& src_wf(e)
    &&& !(e is Id)
    &&& is_ascii_chars(s)
    &&& s.len() < usize::MAX
    &&& placed(s, i, src_text(e))
    &&& i >= 1
    &&& s[i - 1] == ' '
    &&& i + src_text(e).len() < s.len()
    &&& s[i + src_text(e).len()] == '}'
    &&& st.depth == 2
    &&& st.skip == 0
    &&& st.lhs_write == 0
    &&& st.ind.oper == 'w'
    &&& st.ind.id != 0
    &&& st.ind.id_expr_start == 0
    &&& st.ind.id_expr_end == 0
}

/// The named expression of an outermost `with` is recorded from its first
/// to its last character.
proof fn lemma_named(s: Seq<char>, i: int, e: LfaeSrc, st: LfaeScan)
    requires
        named_ready(s, i, e, st),
    ensures
        lfae_run(s, st, i, i + src_text(e).len()) == Some(
            LfaeScan {
                ind: s_index {
                    id_expr_start: i as usize,
                    id_expr_end: (i + src_text(e).len() - 1) as usize,
                    ..st.ind
                },
                ..st
            },
        ),
{
    lemma_src_text(e);
    lemma_ascii_bytes(s);
    let t = src_text(e);
    let n = t.len() as int;
    let b = bytes_of(s);
    let fin = LfaeScan {
        ind: s_index { id_expr_start: i as usize, id_expr_end: (i + n - 1) as usize, ..st.ind },
        ..st
    };
    match e {
        LfaeSrc::Num(lit) => {
            assert forall|m: int| 0 <= m < n implies s[i + m] == #[trigger] lit[m] by {
                lemma_placed_char(s, i, lit, m);
            }
            let k0 = if lit[0] == '-' { i + 1 } else { i };
            if lit[0] == '-' {
                assert(s[i] == '-');
                lemma_run_step(s, st, st, i);
            }
            assert forall|m: int| k0 + 1 <= m < i + n implies is_num_byte(#[trigger] b[m]) by {
                assert(s[m] == lit[m - i]);
                assert(is_num_char(s[m]));
                assert(b[m] == s[m] as u8);
            }
            assert(b[i + n] == s[i + n] as u8);
            lemma_run_end(b, k0 + 1, i + n);
            lemma_minus_ascii(s, k0);
            assert(is_num_char(s[k0])) by {
                assert(s[k0] == lit[k0 - i]);
            }
            lemma_run_step(s, st, fin, k0);
            assert forall|k: int| k0 + 1 <= k < i + n implies #[trigger] lfae_step(s, k, fin) == Some(
                fin,
            ) by {
                assert(s[k] == lit[k - i]);
            }
            lemma_run_still(s, fin, k0 + 1, i + n);
            lemma_run_join(s, st, fin, fin, k0, k0 + 1, i + n);
            if lit[0] == '-' {
                lemma_run_join(s, st, st, fin, i, i + 1, i + n);
            }
        },
        _ => {
            let st1 = LfaeScan {
                ind: s_index { id_expr_start: i as usize, ..st.ind },
                depth: 3,
                ..st
            };
            lemma_placed_char(s, i, t, 0);
            lemma_contents_last(s, i, e);
            lemma_run_step(s, st, st1, i);
            lemma_contents(s, i, e, st1);
            lemma_run_step(s, st1, fin, i + n - 1);
            lemma_run_join(s, st, st1, st1, i, i + 1, i + n - 1);
            lemma_run_join(s, st, st1, fin, i, i + n - 1, i + n);
        },
    }
}

/// The positions a scan finds in the text of a well-formed written form.
pub open spec fn top_index(e: LfaeSrc) -> s_index {
    let z = start_index();
    match e {
        LfaeSrc::Num(n) => s_index { lhs_end: (n.len() - 1) as usize, ..z },
        LfaeSrc::Id(_) => s_index { oper: 'd', ..z },
        LfaeSrc::Add(l, r) => pair_index('+', 3, src_text(*l).len() as int, src_text(*r).len() as int),
        LfaeSrc::Sub(l, r) => pair_index('-', 3, src_text(*l).len() as int, src_text(*r).len() as int),
        LfaeSrc::App(l, r) => pair_index(' ', 1, src_text(*l).len() as int, src_text(*r).len() as int),
        LfaeSrc::Fun(_, b) => s_index {
            lhs_start: 5,
            lhs_end: 7,
            id: 6,
            rhs_start: 9,
            rhs_end: (8 + src_text(*b).len()) as usize,
            oper: 'f',
            ..z
        },
        LfaeSrc::With(_, v, b) => {
            let a = src_text(*v).len() as int;
            s_index {
                lhs_start: 6,
                lhs_end: (9 + a) as usize,
                id_expr_start: 9,
                id_expr_end: (8 + a) as usize,
                id: 7,
                rhs_start: (11 + a) as usize,
                rhs_end: (10 + a + src_text(*b).len()) as usize,
                oper: 'w',
            }
        },
    }
}

/// The positions in `{op l r}` (`off` 3) or `{l r}` (`off` 1) with operand
/// texts of lengths `a` and `b`.
pub open spec fn pair_index(op: char, off: int, a: int, b: int) -> s_index {
    s_index {
        lhs_start: off as usize,
        lhs_end: (off + a - 1) as usize,
        rhs_start: (off + a + 1) as usize,
        rhs_end: (off + a + b) as usize,
        oper: op,
        ..start_index()
    }
}

/// The scan's starting state.
pub open spec fn scan_start() -> LfaeScan {
    LfaeScan { ind: start_index(), depth: 0, lhs_write: 0, skip: 0 }
}

/// The text of a form stands at the start of `s`, followed by at most a
/// line break.
pub open spec fn top_ready(s: Seq<char>, e: LfaeSrc) -> bool {
    &&& src_wf(e)
    &&& is_line(s, src_text(e))
    &&& s.len() < usize::MAX
}

proof fn lemma_top_basics(s: Seq<char>, e: LfaeSrc)
    requires
        top_ready(s, e),
    ensures
        is_ascii_chars(s),
        placed(s, 0, src_text(e)),
        s.len() > src_text(e).len() ==> s.len() == src_text(e).len() + 1 && s[src_text(e).len() as int]
            == '\n',
{
    lemma_src_text(e);
    let t = src_text(e);
    let n = t.len() as int;
    assert(s.subrange(0, n) =~= t);
    assert forall|m: int| 0 <= m < s.len() implies '\0' <= #[trigger] s[m] <= '\u{7f}' by {
        if m < n {
            assert(s[m] == t[m]);
        }
    }
    if s.len() > n {
        assert(s == t + seq!['\n']);
        assert(s[n] == '\n');
    }
}

proof fn lemma_top_pair(s: Seq<char>, e: LfaeSrc)
    requires
        top_ready(s, e),
        e is Add || e is Sub || e is App,
    ensures
        lfae_run(s, scan_start(), 0, src_text(e).len() as int) matches Some(fin) && fin.ind
            == top_index(e) && fin.depth == 0 && fin.skip == 0,
{
    lemma_top_basics(s, e);
    lemma_src_text(e);
    let t = src_text(e);
    let n = t.len() as int;
    let st0 = scan_start();
    match e {
        LfaeSrc::Add(l, r) | LfaeSrc::Sub(l, r) | LfaeSrc::App(l, r) => {
            let tl = src_text(*l);
            let tr = src_text(*r);
            lemma_src_text(*l);
            lemma_src_text(*r);
            let off = if e is App { 1int } else { 3int };
            let op = if e is App { ' ' } else if e is Add { '+' } else { '-' };
            if e is App {
                assert(t == app_text(tl, tr));
            } else if e is Add {
                assert(t == op_text('+', tl, tr));
            } else {
                assert(t == op_text('-', tl, tr));
            }
            lemma_pair_parts(s, 0, t, off, tl, tr);
            let p = off + tl.len();
            let q = p + 1 + tr.len();
            let st1 = LfaeScan { depth: 1, ..st0 };
            let st2 = LfaeScan { ind: s_index { oper: op, ..st0.ind }, depth: 1, ..st0 };
            lemma_run_step(s, st0, st1, 0);
            if off == 3 {
                lemma_run_step(s, st1, st2, 1);
                lemma_run_step(s, st2, st2, 2);
                lemma_run_join(s, st0, st1, st2, 0, 1, 2);
                lemma_run_join(s, st0, st2, st2, 0, 2, 3);
            } else {
                assert(st1 == st2);
            }
            lemma_operand(s, off, *l, st2, true);
            let st3 = operand_state(st2, off, p - 1, true, *l is Num);
            lemma_run_join(s, st0, st2, st3, 0, off, p);
            let st4 = LfaeScan { lhs_write: 2, ..st3 };
            lemma_run_step(s, st3, st4, p);
            lemma_run_join(s, st0, st3, st4, 0, p, p + 1);
            lemma_operand(s, p + 1, *r, st4, false);
            let st5 = operand_state(st4, p + 1, q - 1, false, *r is Num);
            lemma_run_join(s, st0, st4, st5, 0, p + 1, q);
            let st6 = LfaeScan { depth: 0, ..st5 };
            lemma_run_step(s, st5, st6, q);
            lemma_run_join(s, st0, st5, st6, 0, q, q + 1);
            assert(st6.ind == top_index(e));
        },
        _ => {},
    }
}

proof fn lemma_top_fun(s: Seq<char>, e: LfaeSrc)
    requires
        top_ready(s, e),
        e is Fun,
    ensures
        lfae_run(s, scan_start(), 0, src_text(e).len() as int) matches Some(fin) && fin.ind
            == top_index(e) && fin.depth == 0 && fin.skip == 0,
{
    lemma_top_basics(s, e);
    lemma_src_text(e);
    lemma_ascii_bytes(s);
    let t = src_text(e);
    let n = t.len() as int;
    let st0 = scan_start();
    if let LfaeSrc::Fun(x, b) = e {
        let tb = src_text(*b);
        let m = tb.len() as int;
        lemma_src_text(*b);
        assert(t == fun_text(x, tb));
        lemma_fun_parts(s, 0, x, tb);
        let st1 = LfaeScan { depth: 1, ..st0 };
        let stf = LfaeScan { ind: s_index { oper: 'f', ..st0.ind }, depth: 1, ..st0 };
        lemma_run_step(s, st0, st1, 0);
        lemma_fun_keyword(s, 1, st1);
        assert(keyword_step(st1, 'f', 3) == LfaeScan { skip: 2, ..stf });
        lemma_run_step(s, st1, LfaeScan { skip: 2, ..stf }, 1);
        lemma_skip_keyword(s, stf, 2, 2);
        lemma_run_join(s, st1, LfaeScan { skip: 2, ..stf }, stf, 1, 2, 4);
        lemma_run_join(s, st0, st1, stf, 0, 1, 4);
        lemma_run_step(s, stf, stf, 4);
        let st5 = LfaeScan { ind: s_index { lhs_start: 5, ..stf.ind }, depth: 2, ..stf };
        lemma_run_step(s, stf, st5, 5);
        lemma_letter_alone(s, 6, st5);
        let st6 = LfaeScan { ind: s_index { id: 6, ..st5.ind }, ..st5 };
        lemma_run_step(s, st5, st6, 6);
        let st7 = LfaeScan { ind: s_index { lhs_end: 7, ..st6.ind }, depth: 1, lhs_write: 2, ..st6 };
        lemma_run_step(s, st6, st7, 7);
        lemma_run_step(s, st7, st7, 8);
        lemma_run_join(s, st0, stf, stf, 0, 4, 5);
        lemma_run_join(s, st0, stf, st5, 0, 5, 6);
        lemma_run_join(s, st0, st5, st6, 0, 6, 7);
        lemma_run_join(s, st0, st6, st7, 0, 7, 8);
        lemma_run_join(s, st0, st7, st7, 0, 8, 9);
        lemma_operand(s, 9, *b, st7, false);
        let st8 = operand_state(st7, 9, 8 + m, false, *b is Num);
        lemma_run_join(s, st0, st7, st8, 0, 9, 9 + m);
        let st9 = LfaeScan { depth: 0, ..st8 };
        lemma_run_step(s, st8, st9, 9 + m);
        lemma_run_join(s, st0, st8, st9, 0, 9 + m, n);
        assert(st9.ind == top_index(e));
    }
}

proof fn lemma_top_with(s: Seq<char>, e: LfaeSrc)
    requires
        top_ready(s, e),
        e is With,
    ensures
        lfae_run(s, scan_start(), 0, src_text(e).len() as int) matches Some(fin) && fin.ind
            == top_index(e) && fin.depth == 0 && fin.skip == 0,
{
    lemma_top_basics(s, e);
    lemma_src_text(e);
    lemma_ascii_bytes(s);
    let t = src_text(e);
    let n = t.len() as int;
    let st0 = scan_start();
    if let LfaeSrc::With(x, v, b) = e {
        let tv = src_text(*v);
        let tb = src_text(*b);
        lemma_src_text(*v);
        lemma_src_text(*b);
        assert(t == with_text(x, tv, tb));
        lemma_with_parts(s, 0, x, tv, tb);
        let p = 9 + tv.len() as int;
        let q = p + 2 + tb.len() as int;
        let st1 = LfaeScan { depth: 1, ..st0 };
        let stw = LfaeScan { ind: s_index { oper: 'w', ..st0.ind }, depth: 1, ..st0 };
        lemma_run_step(s, st0, st1, 0);
        lemma_with_keyword(s, 1, st1);
        assert(keyword_step(st1, 'w', 4) == LfaeScan { skip: 3, ..stw });
        lemma_run_step(s, st1, LfaeScan { skip: 3, ..stw }, 1);
        lemma_skip_keyword(s, stw, 2, 3);
        lemma_run_join(s, st1, LfaeScan { skip: 3, ..stw }, stw, 1, 2, 5);
        lemma_run_join(s, st0, st1, stw, 0, 1, 5);
        lemma_run_step(s, stw, stw, 5);
        let st6 = LfaeScan { ind: s_index { lhs_start: 6, ..stw.ind }, depth: 2, ..stw };
        lemma_run_step(s, stw, st6, 6);
        lemma_letter_alone(s, 7, st6);
        let st7 = LfaeScan { ind: s_index { id: 7, ..st6.ind }, ..st6 };
        lemma_run_step(s, st6, st7, 7);
        lemma_run_step(s, st7, st7, 8);
        lemma_run_join(s, st0, stw, stw, 0, 5, 6);
        lemma_run_join(s, st0, stw, st6, 0, 6, 7);
        lemma_run_join(s, st0, st6, st7, 0, 7, 8);
        lemma_run_join(s, st0, st7, st7, 0, 8, 9);
        lemma_named(s, 9, *v, st7);
        let st8 = LfaeScan {
            ind: s_index { id_expr_start: 9, id_expr_end: (p - 1) as usize, ..st7.ind },
            ..st7
        };
        lemma_run_join(s, st0, st7, st8, 0, 9, p);
        let st9 = LfaeScan {
            ind: s_index { lhs_end: p as usize, ..st8.ind },
            depth: 1,
            lhs_write: 2,
            ..st8
        };
        lemma_run_step(s, st8, st9, p);
        lemma_run_step(s, st9, st9, p + 1);
        lemma_run_join(s, st0, st8, st9, 0, p, p + 1);
        lemma_run_join(s, st0, st9, st9, 0, p + 1, p + 2);
        lemma_operand(s, p + 2, *b, st9, false);
        let st10 = operand_state(st9, p + 2, q - 1, false, *b is Num);
        lemma_run_join(s, st0, st9, st10, 0, p + 2, q);
        let st11 = LfaeScan { depth: 0, ..st10 };
        lemma_run_step(s, st10, st11, q);
        lemma_run_join(s, st0, st10, st11, 0, q, n);
        assert(st11.ind == top_index(e));
    }
}

proof fn lemma_scan_text(s: Seq<char>, e: LfaeSrc)
    requires
        top_ready(s, e),
    ensures
        lfae_scan(s, start_index()) == Some(top_index(e)),
{
    lemma_top_basics(s, e);
    lemma_src_text(e);
    lemma_ascii_bytes(s);
    let t = src_text(e);
    let n = t.len() as int;
    let st0 = scan_start();
    lemma_upto_run(s, st0, s.len());
    let fin = match e {
        LfaeSrc::Num(lit) => {
            lemma_literal(s, 0, lit, st0, true);
            literal_state(st0, 0, n - 1, true)
        },
        LfaeSrc::Id(x) => {
            lemma_placed_char(s, 0, t, 0);
            let f = LfaeScan { ind: s_index { oper: 'd', ..st0.ind }, ..st0 };
            assert(lfae_step(s, 0, st0) == Some(letter_step(0, st0)));
            lemma_run_step(s, st0, f, 0);
            f
        },
        LfaeSrc::Fun(_, _) => {
            lemma_top_fun(s, e);
            lfae_run(s, st0, 0, n)->0
        },
        LfaeSrc::With(_, _, _) => {
            lemma_top_with(s, e);
            lfae_run(s, st0, 0, n)->0
        },
        _ => {
            lemma_top_pair(s, e);
            lfae_run(s, st0, 0, n)->0
        },
    };
    assert(lfae_run(s, st0, 0, n) == Some(fin));
    assert(fin.ind == top_index(e) && fin.depth == 0 && fin.skip == 0);
    if s.len() > n {
        lemma_run_split(s, st0, 0, n, n + 1);
        lemma_run_step(s, fin, fin, n);
    }
}

/// Parsing the text of a well-formed written form gives the expression it
/// stands for (a `with` gives the application of a function), and so does
/// parsing it with the line break that reading a line leaves.
pub proof fn law_lfae_parse_text(e: LfaeSrc)
    requires
        src_wf(e),
        src_text(e).len() + 1 < usize::MAX,
    ensures
        spec_parse(src_text(e)) == Some(src_meaning(e)),
        spec_parse(src_text(e) + seq!['\n']) == Some(src_meaning(e)),
{
    lemma_parse_line(src_text(e), e);
    lemma_parse_line(src_text(e) + seq!['\n'], e);
}

proof fn lemma_parse_line(s: Seq<char>, e: LfaeSrc)
    requires
        top_ready(s, e),
    ensures
        spec_parse(s) == Some(src_meaning(e)),
    decreases src_size(e), 1nat,
{
    if e is Fun {
        lemma_parse_fun(s, e);
    } else if e is With {
        lemma_parse_with(s, e);
    } else if e is Num || e is Id {
        lemma_parse_leaf(s, e);
    } else {
        lemma_parse_pair(s, e);
    }
}

proof fn lemma_parse_leaf(s: Seq<char>, e: LfaeSrc)
    requires
        top_ready(s, e),
        e is Num || e is Id,
    ensures
        spec_parse(s) == Some(src_meaning(e)),
{
    lemma_top_basics(s, e);
    lemma_src_text(e);
    lemma_scan_text(s, e);
    let t = src_text(e);
    let n = t.len() as int;
    law_ascii_slice(s, 0, 1);
    match e {
        LfaeSrc::Num(lit) => {
            law_ascii_slice(s, 0, n);
            assert(s.subrange(0, n) == t);
        },
        LfaeSrc::Id(x) => {
            assert(s.subrange(0, 1) =~= seq![x]);
        },
        _ => {},
    }
}

#[verifier::rlimit(60)]
proof fn lemma_parse_pair(s: Seq<char>, e: LfaeSrc)
    requires
        top_ready(s, e),
        e is Add || e is Sub || e is App,
    ensures
        spec_parse(s) == Some(src_meaning(e)),
    decreases src_size(e), 0nat,
{
    lemma_top_basics(s, e);
    lemma_src_text(e);
    lemma_scan_text(s, e);
    let t = src_text(e);
    let n = t.len() as int;
    law_ascii_slice(s, 0, 1);
    match e {
        LfaeSrc::Add(l, r) | LfaeSrc::Sub(l, r) | LfaeSrc::App(l, r) => {
            let tl = src_text(*l);
            let tr = src_text(*r);
            lemma_src_text(*l);
            lemma_src_text(*r);
            let off = if e is App { 1int } else { 3int };
            if e is App {
                assert(t == app_text(tl, tr));
            } else if e is Add {
                assert(t == op_text('+', tl, tr));
            } else {
                assert(t == op_text('-', tl, tr));
            }
            lemma_pair_parts(s, 0, t, off, tl, tr);
            let p = off + tl.len() as int;
            law_ascii_slice(s, off, p);
            law_ascii_slice(s, p + 1, p + 1 + tr.len());
            assert(s.subrange(off, p) == tl);
            assert(s.subrange(p + 1, p + 1 + tr.len()) == tr);
            lemma_parse_line(tl, *l);
            lemma_parse_line(tr, *r);
        },
        _ => {},
    }
}

proof fn lemma_parse_fun(s: Seq<char>, e: LfaeSrc)
    requires
        top_ready(s, e),
        e is Fun,
    ensures
        spec_parse(s) == Some(src_meaning(e)),
    decreases src_size(e), 0nat,
{
    lemma_top_basics(s, e);
    lemma_src_text(e);
    lemma_scan_text(s, e);
    let t = src_text(e);
    let n = t.len() as int;
    law_ascii_slice(s, 0, 1);
    match e {
        LfaeSrc::Fun(x, b) => {
            let tb = src_text(*b);
            lemma_src_text(*b);
            assert(t == fun_text(x, tb));
            lemma_fun_parts(s, 0, x, tb);
            law_ascii_slice(s, 5, 8);
            law_ascii_slice(s, 6, 7);
            law_ascii_slice(s, 9, 9 + tb.len() as int);
            assert(s.subrange(6, 7) =~= seq![x]);
            assert(s.subrange(9, 9 + tb.len() as int) == tb);
            lemma_parse_line(tb, *b);
        },
        _ => {},
    }
}

#[verifier::rlimit(60)]
proof fn lemma_parse_with(s: Seq<char>, e: LfaeSrc)
    requires
        top_ready(s, e),
        e is With,
    ensures
        spec_parse(s) == Some(src_meaning(e)),
    decreases src_size(e), 0nat,
{
    lemma_top_basics(s, e);
    lemma_src_text(e);
    lemma_scan_text(s, e);
    let t = src_text(e);
    let n = t.len() as int;
    law_ascii_slice(s, 0, 1);
    match e {
        LfaeSrc::With(x, v, b) => {
            let tv = src_text(*v);
            let tb = src_text(*b);
            lemma_src_text(*v);
            lemma_src_text(*b);
            assert(t == with_text(x, tv, tb));
            lemma_with_parts(s, 0, x, tv, tb);
            let p = 9 + tv.len() as int;
            law_ascii_slice(s, 6, p + 1);
            law_ascii_slice(s, 7, 8);
            law_ascii_slice(s, 9, p);
            law_ascii_slice(s, p + 2, p + 2 + tb.len());
            assert(s.subrange(7, 8) =~= seq![x]);
            assert(s.subrange(9, p) == tv);
            assert(s.subrange(p + 2, p + 2 + tb.len()) == tb);
            lemma_parse_line(tv, *v);
            lemma_parse_line(tb, *b);
        },
        _ => {},
    }
}

} // verus!
