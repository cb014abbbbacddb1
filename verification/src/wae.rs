//! Arithmetic with local bindings: numbers, identifiers (one letter),
//! `{+ l r}`, `{- l r}` and `{with {x e} body}`, evaluated by substitution.
use crate::num::{Num, NumV};
use crate::text::{bytes_of, can_slice, lemma_bytes_len, slice_text, text_slice, try_slice_text};
use vstd::prelude::*;
use vstd::std_specs::iter::IteratorSpec;
use vstd::string::StrSliceExecFns;
use vstd::string::StringSliceAdditionalSpecFns;
use vstd::utf8::*;

verus! {

broadcast use vstd::utf8::group_utf8_lib;

/// An expression with bindings; a number holds a [`Num`].
#[allow(non_camel_case_types)]
#[derive(Debug)]
pub enum AE {
    num(Num),
    Add(Box<AE>, Box<AE>),
    Sub(Box<AE>, Box<AE>),
    with((String, Box<AE>), Box<AE>),
    id(String),
}

/// The model of an [`AE`].
pub enum WaeV {
    Num(NumV),
    Add(Box<WaeV>, Box<WaeV>),
    Sub(Box<WaeV>, Box<WaeV>),
    With(Seq<char>, Box<WaeV>, Box<WaeV>),
    Id(Seq<char>),
}

/// The model of an expression.
pub open spec fn wae_view(e: AE) -> WaeV
    decreases e,
{
    match e {
        AE::num(n) => WaeV::Num(n@),
        AE::Add(l, r) => WaeV::Add(Box::new(wae_view(*l)), Box::new(wae_view(*r))),
        AE::Sub(l, r) => WaeV::Sub(Box::new(wae_view(*l)), Box::new(wae_view(*r))),
        AE::with((i, v), b) => WaeV::With(i@, Box::new(wae_view(*v)), Box::new(wae_view(*b))),
        AE::id(s) => WaeV::Id(s@),
    }
}

impl View for AE {
    type V = WaeV;

    open spec fn view(&self) -> WaeV {
        wae_view(*self)
    }
}

/// Where the parts of an expression are (character positions, used as byte
/// positions when cutting): the two operands, the named expression of a
/// `with`, the identifier; and the form (`' '` number, `'+'`, `'-'`, `'w'`
/// with, `'d'` identifier).
#[allow(non_camel_case_types)]
#[derive(Debug, Clone, Copy)]
pub struct s_index {
    pub lhs_start: usize,
    pub lhs_end: usize,
    pub id_expr_start: usize,
    pub id_expr_end: usize,
    pub id: usize,
    pub rhs_start: usize,
    pub rhs_end: usize,
    pub oper: char,
}

/// The positions the parser starts a scan from.
pub open spec fn start_index() -> s_index {
    s_index {
        lhs_start: 0,
        lhs_end: 0,
        id_expr_start: 0,
        id_expr_end: 0,
        id: 0,
        rhs_start: 0,
        rhs_end: 0,
        oper: ' ',
    }
}

/// A character that continues a number literal.
pub open spec fn is_num_char(c: char) -> bool {
    ('0' <= c && c <= '9') || c == '.'
}

/// A byte that continues a number literal.
pub open spec fn is_num_byte(b: u8) -> bool {
    (48u8 <= b && b <= 57u8) || b == 46u8
}

/// An ASCII letter.
pub open spec fn is_letter(c: char) -> bool {
    ('a' <= c && c <= 'z') || ('A' <= c && c <= 'Z')
}

/// The byte before position `k` is a minus sign.
pub open spec fn minus_before(b: Seq<u8>, k: int) -> bool {
    k > 0 && b[k - 1] == 45u8
}

/// The last position of the run of number bytes that starts at `i`, or
/// `last` when there is none.
pub open spec fn num_run_end(b: Seq<u8>, i: int, last: int) -> int
    decreases b.len() - i,
{
    if 0 <= i < b.len() && is_num_byte(b[i]) {
        num_run_end(b, i + 1, i)
    } else {
        last
    }
}

/// The positions after the named expression of a `with` is met at position
/// `k`: it runs from `k` (or the minus sign before it) to the end of the
/// number there.
pub open spec fn with_name_expr_index(b: Seq<u8>, ind: s_index, k: int) -> s_index {
    if ind.oper == 'w' && ind.id_expr_start == 0 {
        let start = if minus_before(b, k) { k - 1 } else { k };
        s_index {
            id_expr_start: start as usize,
            id_expr_end: num_run_end(b, k + 1, k) as usize,
            ..ind
        }
    } else {
        ind
    }
}

/// Records where the named expression of a `with` is, when it is the number
/// at position `count` and none was recorded yet.
pub fn with_name_expr(s: &String, ind_instance: &mut s_index, count: usize)
    requires
        old(ind_instance).oper == 'w' && old(ind_instance).id_expr_start == 0 ==> count <= bytes_of(
            s@,
        ).len() && count < usize::MAX,
    ensures
        *final(ind_instance) == with_name_expr_index(bytes_of(s@), *old(ind_instance), count as int),
{
    if ind_instance.oper == 'w' && ind_instance.id_expr_start == 0 {
        let b = s.as_str().as_bytes();
        ind_instance.id_expr_start = count;
        if count > 0 && b[count - 1] == 45u8 {
            ind_instance.id_expr_start = count - 1;
        }
        ind_instance.id_expr_end = count;
        let mut while_idx: usize = count + 1;
        let ghost ind1 = *ind_instance;
        while b.len() > while_idx
            invariant
                b@ == bytes_of(s@),
                count < while_idx <= b@.len() || while_idx == count + 1,
                ind_instance.id_expr_end < while_idx,
                *ind_instance == (s_index { id_expr_end: ind_instance.id_expr_end, ..ind1 }),
                num_run_end(b@, count + 1, count as int) == num_run_end(
                    b@,
                    while_idx as int,
                    ind_instance.id_expr_end as int,
                ),
            ensures
                *ind_instance == (s_index { id_expr_end: ind_instance.id_expr_end, ..ind1 }),
                num_run_end(b@, count + 1, count as int) == ind_instance.id_expr_end,
            decreases b@.len() - while_idx,
        {
            let c = b[while_idx];
            if (48u8 <= c && c <= 57u8) || c == 46u8 {
                ind_instance.id_expr_end = while_idx;
            } else {
                break ;
            }
            while_idx = while_idx + 1;
        }
    }
}

/// The state of a scan between two characters: the positions found so far,
/// the number of open braces, whether the left operand is still being read
/// (0: not begun, 1: in a number, 2: done), and how many characters of a
/// `with` keyword are still to be passed over.
pub struct WaeScan {
    pub ind: s_index,
    pub depth: nat,
    pub lhs_write: int,
    pub skip: nat,
}

/// The bytes of the keyword `with`.
pub open spec fn with_bytes() -> Seq<u8> {
    seq![119u8, 105u8, 116u8, 104u8]
}

/// One step of the scan, at the character in position `k`; `None` where the
/// step cannot be taken: a start position would go below zero, or the four
/// bytes after a `w` are not whole characters.
pub open spec fn wae_step(s: Seq<char>, k: int, st: WaeScan) -> Option<WaeScan> {
    let b = bytes_of(s);
    let c = s[k];
    let ind = st.ind;
    let d = st.depth;
    let lw = st.lhs_write;
    let ku = k as usize;
    if st.skip > 0 {
        Some(WaeScan { skip: (st.skip - 1) as nat, ..st })
    } else if c == 'w' {
        if b.len() > k + 4 {
            if !(is_char_boundary(b, k) && is_char_boundary(b, k + 4)) {
                None
            } else if b.subrange(k, k + 4) == with_bytes() {
                Some(WaeScan { ind: s_index { oper: 'w', ..ind }, skip: 3, ..st })
            } else {
                Some(st)
            }
        } else {
            Some(st)
        }
    } else if c == '{' {
        let ind2 = if d == 1 {
            if ind.lhs_start == 0 {
                s_index { lhs_start: ku, ..ind }
            } else {
                s_index { rhs_start: ku, ..ind }
            }
        } else if d == 2 && ind.id_expr_start == 0 && ind.oper == 'w' {
            s_index { id_expr_start: ku, ..ind }
        } else {
            ind
        };
        Some(WaeScan { ind: ind2, depth: d + 1, ..st })
    } else if c == '}' {
        let d2: nat = if d > 0 { (d - 1) as nat } else { 0 };
        if d2 == 1 {
            if ind.lhs_end == 0 {
                Some(WaeScan { ind: s_index { lhs_end: ku, ..ind }, depth: d2, lhs_write: 2, ..st })
            } else {
                Some(WaeScan { ind: s_index { rhs_end: ku, ..ind }, depth: d2, ..st })
            }
        } else if d2 == 2 && ind.id_expr_end == 0 && ind.oper == 'w' {
            Some(WaeScan { ind: s_index { id_expr_end: ku, ..ind }, depth: d2, ..st })
        } else {
            Some(WaeScan { depth: d2, ..st })
        }
    } else if d == 1 && ind.oper == ' ' && (c == '+' || c == '-') {
        Some(WaeScan { ind: s_index { oper: c, ..ind }, ..st })
    } else if is_num_char(c) {
        if d <= 1 {
            if lw != 2 {
                let start = if ind.lhs_start == 0 && lw == 0 { ku } else { ind.lhs_start };
                if minus_before(b, k) && start == 0 {
                    None
                } else {
                    let start2 = if minus_before(b, k) { (start - 1) as usize } else { start };
                    Some(WaeScan {
                        ind: s_index { lhs_start: start2, lhs_end: ku, ..ind },
                        lhs_write: 1,
                        ..st
                    })
                }
            } else {
                let start = if ind.rhs_start == 0 { ku } else { ind.rhs_start };
                if minus_before(b, k) && start == 0 {
                    None
                } else {
                    let start2 = if minus_before(b, k) { (start - 1) as usize } else { start };
                    Some(WaeScan { ind: s_index { rhs_start: start2, rhs_end: ku, ..ind }, ..st })
                }
            }
        } else if d == 2 {
            Some(WaeScan { ind: with_name_expr_index(b, ind, k), ..st })
        } else {
            Some(st)
        }
    } else if c == ' ' {
        if lw == 1 {
            Some(WaeScan { lhs_write: 2, ..st })
        } else {
            Some(st)
        }
    } else if is_letter(c) {
        if d == 2 && ind.id == 0 {
            Some(WaeScan { ind: s_index { id: ku, ..ind }, ..st })
        } else if d == 1 {
            if lw != 2 {
                Some(WaeScan { ind: s_index { lhs_start: ku, lhs_end: ku, ..ind }, lhs_write: 2, ..st })
            } else {
                Some(WaeScan { ind: s_index { rhs_start: ku, rhs_end: ku, ..ind }, ..st })
            }
        } else if d == 0 {
            Some(WaeScan { ind: s_index { id: ku, oper: 'd', ..ind }, ..st })
        } else {
            Some(st)
        }
    } else {
        Some(st)
    }
}

/// The scan over the first `n` characters of `s`.
pub open spec fn wae_scan_upto(s: Seq<char>, st0: WaeScan, n: nat) -> Option<WaeScan>
    decreases n,
{
    if n == 0 {
        Some(st0)
    } else {
        match wae_scan_upto(s, st0, (n - 1) as nat) {
            Some(st) => wae_step(s, n - 1, st),
            None => None,
        }
    }
}

/// Once the scan has panicked it stays so.
proof fn lemma_wae_scan_stuck(s: Seq<char>, st0: WaeScan, m: nat, n: nat)
    requires
        m <= n,
        wae_scan_upto(s, st0, m) is None,
    ensures
        wae_scan_upto(s, st0, n) is None,
    decreases n - m,
{
    if m < n {
        lemma_wae_scan_stuck(s, st0, m, (n - 1) as nat);
    }
}

/// The positions that a whole scan of `s` leaves, starting from `ind`;
/// `None` where the scan panics.
pub open spec fn wae_scan(s: Seq<char>, ind: s_index) -> Option<s_index> {
    match wae_scan_upto(s, WaeScan { ind, depth: 0, lhs_write: 0, skip: 0 }, s.len()) {
        Some(st) => Some(st.ind),
        None => None,
    }
}

/// Scans `s` and records in `ind_instance` where the parts of its outermost
/// form are and which form it is. Returns `false`, having stopped, exactly
/// where the scan would panic.
pub fn try_subst_index(s: &String, ind_instance: &mut s_index) -> (ok: bool)
    ensures
        ok == wae_scan(s@, *old(ind_instance)) is Some,
        ok ==> *final(ind_instance) == wae_scan(s@, *old(ind_instance))->0,
{
    let st = s.as_str();
    let b = st.as_bytes();
    proof {
        lemma_bytes_len(s@);
    }
    let ghost st0 = WaeScan { ind: *ind_instance, depth: 0, lhs_write: 0, skip: 0 };
    let mut it = st.chars();
    let mut count: usize = 0;
    let mut depth: usize = 0;
    let mut lhs_write: u8 = 0;
    let mut skip: u8 = 0;
    loop
        invariant
            b@ == bytes_of(s@),
            st@ == s@,
            s@.len() <= b@.len(),
            count <= s@.len(),
            depth <= count,
            skip <= 3,
            it.remaining() == s@.skip(count as int),
            st0.ind == *old(ind_instance),
            st0.depth == 0,
            st0.lhs_write == 0,
            st0.skip == 0,
            wae_scan_upto(s@, st0, count as nat) == Some(
                WaeScan {
                    ind: *ind_instance,
                    depth: depth as nat,
                    lhs_write: lhs_write as int,
                    skip: skip as nat,
                },
            ),
        ensures
            count == s@.len(),
            wae_scan_upto(s@, st0, count as nat) == Some(
                WaeScan {
                    ind: *ind_instance,
                    depth: depth as nat,
                    lhs_write: lhs_write as int,
                    skip: skip as nat,
                },
            ),
        decreases s@.len() - count,
    {
        let next = it.next();
        let c = match next {
            None => {
                break ;
            },
            Some(c) => c,
        };
        assert(c == s@[count as int]);
        let ghost pre = WaeScan {
            ind: *ind_instance,
            depth: depth as nat,
            lhs_write: lhs_write as int,
            skip: skip as nat,
        };
        let minus = count > 0 && b[count - 1] == 45u8;
        assert(minus == minus_before(b@, count as int));
        if skip > 0 {
            skip = skip - 1;
        } else if c == 'w' {
            if b.len() - count > 4 {
                if !(st.is_char_boundary(count) && st.is_char_boundary(count + 4)) {
                    proof {
                        lemma_wae_scan_stuck(s@, st0, (count + 1) as nat, s@.len());
                    }
                    return false;
                }
                if b[count] == 119u8 && b[count + 1] == 105u8 && b[count + 2] == 116u8 && b[count
                    + 3] == 104u8 {
                    assert(b@.subrange(count as int, count + 4) =~= with_bytes());
                    ind_instance.oper = 'w';
                    skip = 3;
                } else {
                    assert(b@.subrange(count as int, count + 4) != with_bytes()) by {
                        if b@.subrange(count as int, count + 4) == with_bytes() {
                            assert(b@[count as int] == b@.subrange(count as int, count + 4)[0]);
                            assert(b@[count + 1] == b@.subrange(count as int, count + 4)[1]);
                            assert(b@[count + 2] == b@.subrange(count as int, count + 4)[2]);
                            assert(b@[count + 3] == b@.subrange(count as int, count + 4)[3]);
                        }
                    }
                }
            }
        } else if c == '{' {
            if depth == 1 {
                if ind_instance.lhs_start == 0 {
                    ind_instance.lhs_start = count;
                } else {
                    ind_instance.rhs_start = count;
                }
            } else if depth == 2 {
                if ind_instance.id_expr_start == 0 && ind_instance.oper == 'w' {
                    ind_instance.id_expr_start = count;
                }
            }
            depth = depth + 1;
        } else if c == '}' {
            if depth > 0 {
                depth = depth - 1;
            }
            if depth == 1 {
                if ind_instance.lhs_end == 0 {
                    ind_instance.lhs_end = count;
                    lhs_write = 2;
                } else {
                    ind_instance.rhs_end = count;
                }
            } else if depth == 2 {
                if ind_instance.id_expr_end == 0 && ind_instance.oper == 'w' {
                    ind_instance.id_expr_end = count;
                }
            }
        } else if depth == 1 && ind_instance.oper == ' ' && (c == '+' || c == '-') {
            ind_instance.oper = c;
        } else if ('0' <= c && c <= '9') || c == '.' {
            if depth <= 1 {
                if lhs_write != 2 {
                    if ind_instance.lhs_start == 0 && lhs_write == 0 {
                        ind_instance.lhs_start = count;
                    }
                    ind_instance.lhs_end = count;
                    if minus {
                        if ind_instance.lhs_start == 0 {
                            proof {
                                lemma_wae_scan_stuck(s@, st0, (count + 1) as nat, s@.len());
                            }
                            return false;
                        }
                        ind_instance.lhs_start = ind_instance.lhs_start - 1;
                    }
                    lhs_write = 1;
                } else {
                    if ind_instance.rhs_start == 0 {
                        ind_instance.rhs_start = count;
                    }
                    ind_instance.rhs_end = count;
                    if minus {
                        if ind_instance.rhs_start == 0 {
                            proof {
                                lemma_wae_scan_stuck(s@, st0, (count + 1) as nat, s@.len());
                            }
                            return false;
                        }
                        ind_instance.rhs_start = ind_instance.rhs_start - 1;
                    }
                }
            } else if depth == 2 {
                with_name_expr(s, ind_instance, count);
            }
        } else if c == ' ' {
            if lhs_write == 1 {
                lhs_write = 2;
            }
        } else if ('a' <= c && c <= 'z') || ('A' <= c && c <= 'Z') {
            if depth == 2 && ind_instance.id == 0 {
                ind_instance.id = count;
            } else if depth == 1 {
                if lhs_write != 2 {
                    ind_instance.lhs_start = count;
                    ind_instance.lhs_end = count;
                    lhs_write = 2;
                } else {
                    ind_instance.rhs_start = count;
                    ind_instance.rhs_end = count;
                }
            } else if depth == 0 {
                ind_instance.id = count;
                ind_instance.oper = 'd';
            }
        }
        assert(wae_step(s@, count as int, pre) == Some(
            WaeScan {
                ind: *ind_instance,
                depth: depth as nat,
                lhs_write: lhs_write as int,
                skip: skip as nat,
            },
        ));
        assert(s@.skip(count as int).drop_first() =~= s@.skip(count + 1));
        count = count + 1;
    }
    true
}

/// Scans `s` and records in `ind_instance` where the parts of its outermost
/// form are and which form it is.
pub fn subst_index(s: &String, ind_instance: &mut s_index)
    requires
        wae_scan(s@, *old(ind_instance)) is Some,
    ensures
        *final(ind_instance) == wae_scan(s@, *old(ind_instance))->0,
{
    let _ = try_subst_index(s, ind_instance);
}

/// The positions after `substring`: a `-` without a right operand is the
/// sign of a number.
pub open spec fn substring_index(ind: s_index) -> s_index {
    if ind.rhs_start == 0 && ind.oper == '-' {
        s_index { oper: ' ', ..ind }
    } else {
        ind
    }
}

/// All four parts can be cut out of `s`.
pub open spec fn parts_sliceable(s: Seq<char>, ind: s_index) -> bool {
    &&& can_slice(s, ind.lhs_start as int, ind.lhs_end + 1)
    &&& can_slice(s, ind.rhs_start as int, ind.rhs_end + 1)
    &&& can_slice(s, ind.id as int, ind.id + 1)
    &&& can_slice(s, ind.id_expr_start as int, ind.id_expr_end + 1)
}

/// Cuts the left operand, the right operand (or body), the identifier and
/// the named expression out of `s`, each up to and including its end
/// position.
pub fn substring(ind_instance: &mut s_index, s: &String) -> (res: (String, String, String, String))
    requires
        parts_sliceable(s@, *old(ind_instance)),
    ensures
        *final(ind_instance) == substring_index(*old(ind_instance)),
        res.0@ == text_slice(s@, old(ind_instance).lhs_start as int, old(ind_instance).lhs_end + 1),
        res.1@ == text_slice(s@, old(ind_instance).rhs_start as int, old(ind_instance).rhs_end + 1),
        res.2@ == text_slice(s@, old(ind_instance).id as int, old(ind_instance).id + 1),
        res.3@ == text_slice(
            s@,
            old(ind_instance).id_expr_start as int,
            old(ind_instance).id_expr_end + 1,
        ),
{
    if ind_instance.rhs_start == 0 && ind_instance.oper == '-' {
        ind_instance.oper = ' ';
    }
    let st = s.as_str();
    let _n = st.as_bytes().len();
    let subs_lhs = slice_text(st, ind_instance.lhs_start, ind_instance.lhs_end + 1);
    let subs_rhs = slice_text(st, ind_instance.rhs_start, ind_instance.rhs_end + 1);
    let subs_id = slice_text(st, ind_instance.id, ind_instance.id + 1);
    let subs_id_expr = slice_text(st, ind_instance.id_expr_start, ind_instance.id_expr_end + 1);
    (subs_lhs, subs_rhs, subs_id, subs_id_expr)
}

/// Whether `substring` can cut all four parts out of `s`.
fn parts_fit(ind: &s_index, s: &String) -> (r: bool)
    ensures
        r == parts_sliceable(s@, *ind),
{
    let st = s.as_str();
    let n = st.as_bytes().len();
    if ind.lhs_end >= n || ind.rhs_end >= n || ind.id >= n || ind.id_expr_end >= n {
        return false;
    }
    try_slice_text(st, ind.lhs_start, ind.lhs_end + 1).is_some() && try_slice_text(
        st,
        ind.rhs_start,
        ind.rhs_end + 1,
    ).is_some() && try_slice_text(st, ind.id, ind.id + 1).is_some() && try_slice_text(
        st,
        ind.id_expr_start,
        ind.id_expr_end + 1,
    ).is_some()
}

/// The expression that `s` parses to; `None` where parsing panics (a scan
/// that fails, a part that cannot be cut out, a form with no case) or never
/// ends: a part with at least as many characters as the text is the text
/// itself (`text::law_long_part_is_whole`), parsed again and again. Number
/// literals are kept as written; whether they read as floats is not decided
/// here.
pub open spec fn spec_parse(s: Seq<char>) -> Option<WaeV>
    decreases s.len(),
{
    match wae_scan(s, start_index()) {
        None => None,
        Some(found) => {
            let ind = substring_index(found);
            if !parts_sliceable(s, found) {
                None
            } else {
                let lhs = text_slice(s, ind.lhs_start as int, ind.lhs_end + 1);
                let rhs = text_slice(s, ind.rhs_start as int, ind.rhs_end + 1);
                let id = text_slice(s, ind.id as int, ind.id + 1);
                let id_expr = text_slice(s, ind.id_expr_start as int, ind.id_expr_end + 1);
                if ind.oper == ' ' {
                    Some(WaeV::Num(NumV::Lit(lhs)))
                } else if ind.oper == '+' || ind.oper == '-' {
                    if lhs.len() < s.len() && rhs.len() < s.len() {
                        match (spec_parse(lhs), spec_parse(rhs)) {
                            (Some(l), Some(r)) => if ind.oper == '+' {
                                Some(WaeV::Add(Box::new(l), Box::new(r)))
                            } else {
                                Some(WaeV::Sub(Box::new(l), Box::new(r)))
                            },
                            _ => None,
                        }
                    } else {
                        None
                    }
                } else if ind.oper == 'w' {
                    if id_expr.len() < s.len() && rhs.len() < s.len() {
                        match (spec_parse(id_expr), spec_parse(rhs)) {
                            (Some(v), Some(b)) => Some(WaeV::With(id, Box::new(v), Box::new(b))),
                            _ => None,
                        }
                    } else {
                        None
                    }
                } else if ind.oper == 'd' {
                    Some(WaeV::Id(id))
                } else {
                    None
                }
            }
        },
    }
}

/// Parses `s`, or returns `None` exactly where parsing it panics or never
/// ends.
pub fn parse_checked(s: String) -> (res: Option<AE>)
    ensures
        res is Some <==> spec_parse(s@) is Some,
        res matches Some(e) ==> e@ == spec_parse(s@)->0,
    decreases s@.len(),
{
    let mut ind_instance = s_index {
        lhs_start: 0,
        lhs_end: 0,
        id_expr_start: 0,
        id_expr_end: 0,
        id: 0,
        rhs_start: 0,
        rhs_end: 0,
        oper: ' ',
    };
    if !try_subst_index(&s, &mut ind_instance) {
        return None;
    }
    if !parts_fit(&ind_instance, &s) {
        return None;
    }
    let (subs_lhs, subs_rhs, subs_id, subs_id_expr) = substring(&mut ind_instance, &s);
    let n = s.as_str().unicode_len();
    if ind_instance.oper == ' ' {
        Some(AE::num(Num::Lit(subs_lhs)))
    } else if ind_instance.oper == '+' || ind_instance.oper == '-' {
        if subs_lhs.as_str().unicode_len() >= n || subs_rhs.as_str().unicode_len() >= n {
            return None;
        }
        let l = match parse_checked(subs_lhs) {
            Some(l) => l,
            None => {
                return None;
            },
        };
        let r = match parse_checked(subs_rhs) {
            Some(r) => r,
            None => {
                return None;
            },
        };
        if ind_instance.oper == '+' {
            Some(AE::Add(Box::new(l), Box::new(r)))
        } else {
            Some(AE::Sub(Box::new(l), Box::new(r)))
        }
    } else if ind_instance.oper == 'w' {
        if subs_id_expr.as_str().unicode_len() >= n || subs_rhs.as_str().unicode_len() >= n {
            return None;
        }
        let v = match parse_checked(subs_id_expr) {
            Some(v) => v,
            None => {
                return None;
            },
        };
        let b = match parse_checked(subs_rhs) {
            Some(b) => b,
            None => {
                return None;
            },
        };
        Some(AE::with((subs_id, Box::new(v)), Box::new(b)))
    } else if ind_instance.oper == 'd' {
        Some(AE::id(subs_id))
    } else {
        None
    }
}

/// Parses `s`: a number, an identifier, `{+ l r}`, `{- l r}` or
/// `{with {x e} body}`, with the parts parsed in turn.
pub fn parse(s: String) -> (res: AE)
    requires
        spec_parse(s@) is Some,
    ensures
        res@ == spec_parse(s@)->0,
{
    match parse_checked(s) {
        Some(e) => e,
        None => {
            proof {
                assert(false);
            }
            AE::id(String::new())
        },
    }
}

/// Replaces the free occurrences of identifier `x` in `e` by the number
/// `val`; a `with` that binds `x` shields its body.
pub open spec fn spec_subst(e: WaeV, x: Seq<char>, val: NumV) -> WaeV
    decreases e,
{
    match e {
        WaeV::Num(_) => e,
        WaeV::Add(l, r) => WaeV::Add(
            Box::new(spec_subst(*l, x, val)),
            Box::new(spec_subst(*r, x, val)),
        ),
        WaeV::Sub(l, r) => WaeV::Sub(
            Box::new(spec_subst(*l, x, val)),
            Box::new(spec_subst(*r, x, val)),
        ),
        WaeV::With(i, v, b) => if i == x {
            WaeV::With(i, Box::new(spec_subst(*v, x, val)), b)
        } else {
            WaeV::With(i, Box::new(spec_subst(*v, x, val)), Box::new(spec_subst(*b, x, val)))
        },
        WaeV::Id(s) => if s == x {
            WaeV::Num(val)
        } else {
            e
        },
    }
}

/// Substitutes the number `val` for the free occurrences of `idtf` in `wae`.
pub fn subst(wae: AE, idtf: String, val: Num) -> (res: AE)
    ensures
        res@ == spec_subst(wae@, idtf@, val@),
    decreases wae,
{
    match wae {
        AE::num(n) => AE::num(n),
        AE::Add(l, r) => AE::Add(
            Box::new(subst(*l, idtf.clone(), val.duplicate())),
            Box::new(subst(*r, idtf, val)),
        ),
        AE::Sub(l, r) => AE::Sub(
            Box::new(subst(*l, idtf.clone(), val.duplicate())),
            Box::new(subst(*r, idtf, val)),
        ),
        AE::with((i, v), e) => {
            if i == idtf {
                AE::with((i, Box::new(subst(*v, idtf, val))), e)
            } else {
                AE::with(
                    (i, Box::new(subst(*v, idtf.clone(), val.duplicate()))),
                    Box::new(subst(*e, idtf, val)),
                )
            }
        },
        AE::id(s) => {
            if s == idtf {
                AE::num(val)
            } else {
                AE::id(s)
            }
        },
    }
}

/// The number of nodes of an expression.
pub open spec fn wae_size(e: WaeV) -> nat
    decreases e,
{
    match e {
        WaeV::Num(_) => 1,
        WaeV::Add(l, r) => 1 + wae_size(*l) + wae_size(*r),
        WaeV::Sub(l, r) => 1 + wae_size(*l) + wae_size(*r),
        WaeV::With(_, v, b) => 1 + wae_size(*v) + wae_size(*b),
        WaeV::Id(_) => 1,
    }
}

/// Substitution keeps the number of nodes.
pub proof fn lemma_subst_size(e: WaeV, x: Seq<char>, val: NumV)
    ensures
        wae_size(spec_subst(e, x, val)) == wae_size(e),
    decreases e,
{
    match e {
        WaeV::Add(l, r) => {
            lemma_subst_size(*l, x, val);
            lemma_subst_size(*r, x, val);
        },
        WaeV::Sub(l, r) => {
            lemma_subst_size(*l, x, val);
            lemma_subst_size(*r, x, val);
        },
        WaeV::With(i, v, b) => {
            lemma_subst_size(*v, x, val);
            lemma_subst_size(*b, x, val);
        },
        _ => {},
    }
}

/// The value of an expression; `None` where evaluation meets a free
/// identifier (and panics).
pub open spec fn spec_interp(e: WaeV) -> Option<NumV>
    decreases wae_size(e),
{
    match e {
        WaeV::Num(n) => Some(n),
        WaeV::Add(l, r) => match (spec_interp(*l), spec_interp(*r)) {
            (Some(a), Some(b)) => Some(NumV::Plus(Box::new(a), Box::new(b))),
            _ => None,
        },
        WaeV::Sub(l, r) => match (spec_interp(*l), spec_interp(*r)) {
            (Some(a), Some(b)) => Some(NumV::Minus(Box::new(a), Box::new(b))),
            _ => None,
        },
        WaeV::With(i, v, b) => match spec_interp(*v) {
            Some(val) => {
                proof {
                    lemma_subst_size(*b, i, val);
                }
                spec_interp(spec_subst(*b, i, val))
            },
            None => None,
        },
        WaeV::Id(_) => None,
    }
}

/// Evaluates an expression, or returns `None` exactly where evaluation meets
/// a free identifier.
pub fn interp_checked(ae: AE) -> (res: Option<Num>)
    ensures
        res is Some <==> spec_interp(ae@) is Some,
        res matches Some(n) ==> n@ == spec_interp(ae@)->0,
    decreases wae_size(ae@),
{
    match ae {
        AE::num(n) => Some(n),
        AE::Add(l, r) => {
            let a = match interp_checked(*l) {
                Some(a) => a,
                None => {
                    return None;
                },
            };
            let b = match interp_checked(*r) {
                Some(b) => b,
                None => {
                    return None;
                },
            };
            Some(Num::Plus(Box::new(a), Box::new(b)))
        },
        AE::Sub(l, r) => {
            let a = match interp_checked(*l) {
                Some(a) => a,
                None => {
                    return None;
                },
            };
            let b = match interp_checked(*r) {
                Some(b) => b,
                None => {
                    return None;
                },
            };
            Some(Num::Minus(Box::new(a), Box::new(b)))
        },
        AE::with((i, v), e) => {
            let val = match interp_checked(*v) {
                Some(val) => val,
                None => {
                    return None;
                },
            };
            proof {
                lemma_subst_size(e@, i@, val@);
            }
            interp_checked(subst(*e, i, val))
        },
        AE::id(_) => None,
    }
}

/// Evaluates an expression: a `with` evaluates its named expression and
/// substitutes the value into its body.
pub fn interp(ae: AE) -> (res: Num)
    requires
        spec_interp(ae@) is Some,
    ensures
        res@ == spec_interp(ae@)->0,
{
    match interp_checked(ae) {
        Some(n) => n,
        None => {
            proof {
                assert(false);
            }
            Num::Lit(String::new())
        },
    }
}

/// The identifiers that occur free in an expression.
pub open spec fn free_ids(e: WaeV) -> Set<Seq<char>>
    decreases e,
{
    match e {
        WaeV::Num(_) => Set::empty(),
        WaeV::Add(l, r) => free_ids(*l).union(free_ids(*r)),
        WaeV::Sub(l, r) => free_ids(*l).union(free_ids(*r)),
        WaeV::With(i, v, b) => free_ids(*v).union(free_ids(*b).remove(i)),
        WaeV::Id(s) => set![s],
    }
}

/// Substituting for `x` removes exactly `x` from the free identifiers.
pub proof fn lemma_subst_free_ids(e: WaeV, x: Seq<char>, val: NumV)
    ensures
        free_ids(spec_subst(e, x, val)) == free_ids(e).remove(x),
    decreases e,
{
    match e {
        WaeV::Num(_) => {
            assert(free_ids(spec_subst(e, x, val)) =~= free_ids(e).remove(x));
        },
        WaeV::Add(l, r) => {
            lemma_subst_free_ids(*l, x, val);
            lemma_subst_free_ids(*r, x, val);
            assert(free_ids(spec_subst(e, x, val)) =~= free_ids(e).remove(x));
        },
        WaeV::Sub(l, r) => {
            lemma_subst_free_ids(*l, x, val);
            lemma_subst_free_ids(*r, x, val);
            assert(free_ids(spec_subst(e, x, val)) =~= free_ids(e).remove(x));
        },
        WaeV::With(i, v, b) => {
            lemma_subst_free_ids(*v, x, val);
            lemma_subst_free_ids(*b, x, val);
            assert(free_ids(spec_subst(e, x, val)) =~= free_ids(e).remove(x));
        },
        WaeV::Id(s) => {
            assert(free_ids(spec_subst(e, x, val)) =~= free_ids(e).remove(x));
        },
    }
}

/// No identifier occurs free in the expression.
pub open spec fn is_closed(e: WaeV) -> bool {
    forall|x: Seq<char>| !(#[trigger] free_ids(e).contains(x))
}

/// An identifier free in a part of an expression is free in the
/// expression, unless a `with` binds it.
proof fn lemma_open_part(e: WaeV, part: WaeV, x: Seq<char>)
    requires
        free_ids(part).contains(x),
        free_ids(part).subset_of(free_ids(e)),
    ensures
        !is_closed(e),
{
    assert(free_ids(e).contains(x));
}

/// Evaluation succeeds exactly on the expressions without free identifiers.
pub proof fn law_interp_defined_iff_closed(e: WaeV)
    ensures
        spec_interp(e) is Some <==> is_closed(e),
    decreases wae_size(e),
{
    match e {
        WaeV::Num(n) => {
            assert(is_closed(e));
        },
        WaeV::Add(l, r) => {
            law_interp_defined_iff_closed(*l);
            law_interp_defined_iff_closed(*r);
            if !is_closed(*l) {
                let x = choose|x: Seq<char>| free_ids(*l).contains(x);
                lemma_open_part(e, *l, x);
            } else if !is_closed(*r) {
                let x = choose|x: Seq<char>| free_ids(*r).contains(x);
                lemma_open_part(e, *r, x);
            } else {
                assert forall|x: Seq<char>| !(#[trigger] free_ids(e).contains(x)) by {
                    assert(!free_ids(*l).contains(x));
                    assert(!free_ids(*r).contains(x));
                }
            }
        },
        WaeV::Sub(l, r) => {
            law_interp_defined_iff_closed(*l);
            law_interp_defined_iff_closed(*r);
            if !is_closed(*l) {
                let x = choose|x: Seq<char>| free_ids(*l).contains(x);
                lemma_open_part(e, *l, x);
            } else if !is_closed(*r) {
                let x = choose|x: Seq<char>| free_ids(*r).contains(x);
                lemma_open_part(e, *r, x);
            } else {
                assert forall|x: Seq<char>| !(#[trigger] free_ids(e).contains(x)) by {
                    assert(!free_ids(*l).contains(x));
                    assert(!free_ids(*r).contains(x));
                }
            }
        },
        WaeV::With(i, v, b) => {
            law_interp_defined_iff_closed(*v);
            if !is_closed(*v) {
                let x = choose|x: Seq<char>| free_ids(*v).contains(x);
                lemma_open_part(e, *v, x);
            } else {
                let val = spec_interp(*v)->0;
                let b2 = spec_subst(*b, i, val);
                lemma_subst_size(*b, i, val);
                lemma_subst_free_ids(*b, i, val);
                law_interp_defined_iff_closed(b2);
                assert(spec_interp(e) == spec_interp(b2));
                if !is_closed(b2) {
                    let x = choose|x: Seq<char>| free_ids(b2).contains(x);
                    assert(free_ids(*b).remove(i).contains(x));
                    lemma_open_part(e, b2, x);
                } else {
                    assert forall|x: Seq<char>| !(#[trigger] free_ids(e).contains(x)) by {
                        assert(!free_ids(*v).contains(x));
                        assert(!free_ids(b2).contains(x));
                        assert(!free_ids(*b).remove(i).contains(x));
                    }
                }
            }
        },
        WaeV::Id(s) => {
            assert(free_ids(e).contains(s));
        },
    }
}

/// Substituting for an identifier that does not occur free changes nothing.
pub proof fn law_subst_absent_id(e: WaeV, x: Seq<char>, val: NumV)
    requires
        !free_ids(e).contains(x),
    ensures
        spec_subst(e, x, val) == e,
    decreases e,
{
    match e {
        WaeV::Add(l, r) => {
            law_subst_absent_id(*l, x, val);
            law_subst_absent_id(*r, x, val);
        },
        WaeV::Sub(l, r) => {
            law_subst_absent_id(*l, x, val);
            law_subst_absent_id(*r, x, val);
        },
        WaeV::With(i, v, b) => {
            law_subst_absent_id(*v, x, val);
            if i != x {
                assert(!free_ids(*b).remove(i).contains(x));
                law_subst_absent_id(*b, x, val);
            }
        },
        WaeV::Id(s) => {
            assert(free_ids(e).contains(s));
        },
        _ => {},
    }
}

/// Evaluation follows the structure of the expression: a number is its own
/// value and a free identifier has none; when both operands of `{+ l r}` or
/// `{- l r}` have values `a` and `b`, whatever their shape, the value is the
/// sum of `a` and `b`, or `a` minus `b`; when either operand has none, the
/// expression has none.
pub proof fn law_interp_structure(n: NumV, x: Seq<char>, l: WaeV, r: WaeV)
    ensures
        spec_interp(WaeV::Num(n)) == Some(n),
        spec_interp(WaeV::Id(x)) is None,
        spec_interp(l) matches Some(a) ==> (spec_interp(r) matches Some(b) ==> spec_interp(
            WaeV::Add(Box::new(l), Box::new(r)),
        ) == Some(NumV::Plus(Box::new(a), Box::new(b)))),
        spec_interp(l) matches Some(a) ==> (spec_interp(r) matches Some(b) ==> spec_interp(
            WaeV::Sub(Box::new(l), Box::new(r)),
        ) == Some(NumV::Minus(Box::new(a), Box::new(b)))),
        spec_interp(l) is None || spec_interp(r) is None ==> spec_interp(
            WaeV::Add(Box::new(l), Box::new(r)),
        ) is None && spec_interp(WaeV::Sub(Box::new(l), Box::new(r))) is None,
{
}

/// Substituting `val` for `x`: numbers stay as they are; an occurrence of
/// `x` becomes the number `val` and another identifier stays; the operands
/// of `{+ l r}` and `{- l r}` are substituted in place; the named expression
/// of a `with` is always substituted, its body only when the `with` binds
/// another identifier than `x`.
pub proof fn law_subst_structure(
    x: Seq<char>,
    y: Seq<char>,
    val: NumV,
    n: NumV,
    l: WaeV,
    r: WaeV,
)
    requires
        y != x,
    ensures
        spec_subst(WaeV::Num(n), x, val) == WaeV::Num(n),
        spec_subst(WaeV::Id(x), x, val) == WaeV::Num(val),
        spec_subst(WaeV::Id(y), x, val) == WaeV::Id(y),
        spec_subst(WaeV::Add(Box::new(l), Box::new(r)), x, val) == WaeV::Add(
            Box::new(spec_subst(l, x, val)),
            Box::new(spec_subst(r, x, val)),
        ),
        spec_subst(WaeV::Sub(Box::new(l), Box::new(r)), x, val) == WaeV::Sub(
            Box::new(spec_subst(l, x, val)),
            Box::new(spec_subst(r, x, val)),
        ),
        spec_subst(WaeV::With(x, Box::new(l), Box::new(r)), x, val) == WaeV::With(
            x,
            Box::new(spec_subst(l, x, val)),
            Box::new(r),
        ),
        spec_subst(WaeV::With(y, Box::new(l), Box::new(r)), x, val) == WaeV::With(
            y,
            Box::new(spec_subst(l, x, val)),
            Box::new(spec_subst(r, x, val)),
        ),
{
}

/// The model of an expression is built node by node, each part in its place.
pub proof fn law_wae_view_structure(n: Num, s: String, v: AE, l: AE, r: AE)
    ensures
        wae_view(AE::num(n)) == WaeV::Num(n@),
        wae_view(AE::id(s)) == WaeV::Id(s@),
        wae_view(AE::Add(Box::new(l), Box::new(r))) == WaeV::Add(
            Box::new(wae_view(l)),
            Box::new(wae_view(r)),
        ),
        wae_view(AE::Sub(Box::new(l), Box::new(r))) == WaeV::Sub(
            Box::new(wae_view(l)),
            Box::new(wae_view(r)),
        ),
        wae_view(AE::with((s, Box::new(v)), Box::new(r))) == WaeV::With(
            s@,
            Box::new(wae_view(v)),
            Box::new(wae_view(r)),
        ),
{
}

/// The forms a scan can find, starting from no form: a number, `+`, `-`,
/// `with`, or an identifier.
pub open spec fn is_wae_form(c: char) -> bool {
    c == ' ' || c == '+' || c == '-' || c == 'w' || c == 'd'
}

proof fn lemma_wae_scan_form(s: Seq<char>, st0: WaeScan, n: nat)
    requires
        is_wae_form(st0.ind.oper),
    ensures
        wae_scan_upto(s, st0, n) matches Some(st) ==> is_wae_form(st.ind.oper),
    decreases n,
{
    if n > 0 {
        lemma_wae_scan_form(s, st0, (n - 1) as nat);
    }
}

/// A scan from the parser's start finds one of the forms the parser handles,
/// so parsing never reaches its last, failing, case.
pub proof fn law_wae_scan_form(s: Seq<char>)
    ensures
        wae_scan(s, start_index()) matches Some(ind) ==> is_wae_form(substring_index(ind).oper),
{
    lemma_wae_scan_form(s, WaeScan { ind: start_index(), depth: 0, lhs_write: 0, skip: 0 }, s.len());
}

/// A `with` evaluates its named expression first and substitutes the value
/// for its identifier in the body, which is then evaluated.
pub proof fn law_interp_with(i: Seq<char>, v: WaeV, b: WaeV)
    ensures
        spec_interp(WaeV::With(i, Box::new(v), Box::new(b))) == match spec_interp(v) {
            Some(val) => spec_interp(spec_subst(b, i, val)),
            None => None,
        },
{
}

} // verus!
