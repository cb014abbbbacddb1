//! A lazy language with first-class functions: numbers, identifiers (one
//! letter), `{+ l r}`, `{- l r}`, `{fun {x} body}`, `{f a}` and
//! `{with {x e} body}` (read as `{{fun {x} body} e}`). Arguments are passed
//! unevaluated, as thunks over the caller's bindings, and forced only where a
//! number or a function is needed.
use crate::num::{Num, NumV};
use crate::text::{bytes_of, can_slice, lemma_bytes_len, slice_text, text_slice, try_slice_text};
pub use crate::wae::{s_index, with_name_expr};
use crate::wae::{is_letter, is_num_char, minus_before, with_bytes, with_name_expr_index};
use vstd::prelude::*;
use vstd::std_specs::iter::IteratorSpec;
use vstd::string::StrSliceExecFns;
use vstd::string::StringSliceAdditionalSpecFns;
use vstd::utf8::*;

verus! {

broadcast use vstd::utf8::group_utf8_lib;

/// The bindings in force: empty, or an identifier bound to a value (most
/// often a thunk) in front of older bindings.
#[allow(non_camel_case_types)]
#[derive(Debug)]
pub enum Defrd {
    mtSub,
    aSub(String, Box<LFAE>, Box<Defrd>),
}

/// Expressions and the values they evaluate to. A number expression holds
/// its literal as written; a number value holds a [`Num`]. A closure keeps
/// its parameter, body and bindings; a thunk (`exprV`) keeps an unevaluated
/// expression, its bindings, and a box that is `Nil` until filled.
#[allow(non_camel_case_types)]
#[derive(Debug)]
pub enum LFAE {
    num(String),
    Add(Box<LFAE>, Box<LFAE>),
    Sub(Box<LFAE>, Box<LFAE>),
    id(String),
    fun(String, Box<LFAE>),
    app(Box<LFAE>, Box<LFAE>),
    numV(Num),
    closureV(String, Box<LFAE>, Box<Defrd>),
    exprV(Box<LFAE>, Box<Defrd>, Box<LFAE>),
    Nil,
}

/// The model of an [`LFAE`].
pub enum LfaeV {
    Num(Seq<char>),
    Add(Box<LfaeV>, Box<LfaeV>),
    Sub(Box<LfaeV>, Box<LfaeV>),
    Id(Seq<char>),
    Fun(Seq<char>, Box<LfaeV>),
    App(Box<LfaeV>, Box<LfaeV>),
    NumV(NumV),
    ClosureV(Seq<char>, Box<LfaeV>, Box<DefrdV>),
    ExprV(Box<LfaeV>, Box<DefrdV>, Box<LfaeV>),
    Nil,
}

/// The model of a [`Defrd`].
pub enum DefrdV {
    MtSub,
    ASub(Seq<char>, Box<LfaeV>, Box<DefrdV>),
}

/// The model of an expression or value.
pub open spec fn lfae_view(e: LFAE) -> LfaeV
    decreases e,
{
    match e {
        LFAE::num(n) => LfaeV::Num(n@),
        LFAE::Add(l, r) => LfaeV::Add(Box::new(lfae_view(*l)), Box::new(lfae_view(*r))),
        LFAE::Sub(l, r) => LfaeV::Sub(Box::new(lfae_view(*l)), Box::new(lfae_view(*r))),
        LFAE::id(s) => LfaeV::Id(s@),
        LFAE::fun(p, b) => LfaeV::Fun(p@, Box::new(lfae_view(*b))),
        LFAE::app(f, a) => LfaeV::App(Box::new(lfae_view(*f)), Box::new(lfae_view(*a))),
        LFAE::numV(n) => LfaeV::NumV(n@),
        LFAE::closureV(p, b, d) => LfaeV::ClosureV(
            p@,
            Box::new(lfae_view(*b)),
            Box::new(defrd_view(*d)),
        ),
        LFAE::exprV(e, d, b) => LfaeV::ExprV(
            Box::new(lfae_view(*e)),
            Box::new(defrd_view(*d)),
            Box::new(lfae_view(*b)),
        ),
        LFAE::Nil => LfaeV::Nil,
    }
}

/// The model of the bindings.
pub open spec fn defrd_view(d: Defrd) -> DefrdV
    decreases d,
{
    match d {
        Defrd::mtSub => DefrdV::MtSub,
        Defrd::aSub(i, v, rest) => DefrdV::ASub(
            i@,
            Box::new(lfae_view(*v)),
            Box::new(defrd_view(*rest)),
        ),
    }
}

impl View for LFAE {
    type V = LfaeV;

    open spec fn view(&self) -> LfaeV {
        lfae_view(*self)
    }
}

impl View for Defrd {
    type V = DefrdV;

    open spec fn view(&self) -> DefrdV {
        defrd_view(*self)
    }
}

impl LFAE {
    /// A copy with the same model.
    pub fn duplicate(&self) -> (r: LFAE)
        ensures
            r@ == self@,
        decreases self,
    {
        match self {
            LFAE::num(n) => LFAE::num(n.clone()),
            LFAE::Add(l, r) => LFAE::Add(Box::new(l.duplicate()), Box::new(r.duplicate())),
            LFAE::Sub(l, r) => LFAE::Sub(Box::new(l.duplicate()), Box::new(r.duplicate())),
            LFAE::id(s) => LFAE::id(s.clone()),
            LFAE::fun(p, b) => LFAE::fun(p.clone(), Box::new(b.duplicate())),
            LFAE::app(f, a) => LFAE::app(Box::new(f.duplicate()), Box::new(a.duplicate())),
            LFAE::numV(n) => LFAE::numV(n.duplicate()),
            LFAE::closureV(p, b, d) => LFAE::closureV(
                p.clone(),
                Box::new(b.duplicate()),
                Box::new(d.duplicate()),
            ),
            LFAE::exprV(e, d, b) => LFAE::exprV(
                Box::new(e.duplicate()),
                Box::new(d.duplicate()),
                Box::new(b.duplicate()),
            ),
            LFAE::Nil => LFAE::Nil,
        }
    }
}

impl Defrd {
    /// A copy with the same model.
    pub fn duplicate(&self) -> (r: Defrd)
        ensures
            r@ == self@,
        decreases self,
    {
        match self {
            Defrd::mtSub => Defrd::mtSub,
            Defrd::aSub(i, v, rest) => Defrd::aSub(
                i.clone(),
                Box::new(v.duplicate()),
                Box::new(rest.duplicate()),
            ),
        }
    }
}

/// The positions the parser starts a scan from.
pub open spec fn start_index() -> s_index {
    s_index {
        lhs_start: 0,
        lhs_end: 0,
        id_expr_start: 0,
        id_expr_end: 0,
        id: 0,
        rhs_start: 0,
        rhs_end: 0,
        oper: ' ',
    }
}

/// The state of a scan between two characters: the positions found so far,
/// the number of open braces, whether the left operand is still being read
/// (0: not begun, 1: in a number, 2: done), and how many characters of a
/// keyword are still to be passed over.
pub struct LfaeScan {
    pub ind: s_index,
    pub depth: nat,
    pub lhs_write: int,
    pub skip: nat,
}

/// The bytes of the keyword `fun`.
pub open spec fn fun_bytes() -> Seq<u8> {
    seq![102u8, 117u8, 110u8]
}

/// A letter that starts no keyword: the identifier of a `with` or `fun`,
/// a one-letter operand, or a whole expression that is an identifier.
pub open spec fn letter_step(k: int, st: LfaeScan) -> LfaeScan {
    let ind = st.ind;
    let ku = k as usize;
    if (ind.oper == 'w' || ind.oper == 'f') && ind.id == 0 {
        LfaeScan { ind: s_index { id: ku, ..ind }, ..st }
    } else if st.depth == 1 {
        if st.lhs_write != 2 {
            LfaeScan { ind: s_index { lhs_start: ku, lhs_end: ku, ..ind }, lhs_write: 2, ..st }
        } else {
            LfaeScan { ind: s_index { rhs_start: ku, rhs_end: ku, ..ind }, ..st }
        }
    } else if st.depth == 0 {
        LfaeScan { ind: s_index { id: ku, oper: 'd', ..ind }, ..st }
    } else {
        st
    }
}

/// A keyword of `len` bytes at position `k`: it names the form when it is
/// the first at the top level, and its other letters are passed over.
pub open spec fn keyword_step(st: LfaeScan, form: char, len: nat) -> LfaeScan {
    let oper = if st.ind.oper == ' ' && st.depth == 1 { form } else { st.ind.oper };
    LfaeScan { ind: s_index { oper, ..st.ind }, skip: (len - 1) as nat, ..st }
}

/// One step of the scan, at the character in position `k`; `None` where the
/// step cannot be taken: a start position would go below zero, or the bytes
/// after an `f` or a `w` compared with a keyword are not whole characters.
pub open spec fn lfae_step(s: Seq<char>, k: int, st: LfaeScan) -> Option<LfaeScan> {
    let b = bytes_of(s);
    let c = s[k];
    let ind = st.ind;
    let d = st.depth;
    let lw = st.lhs_write;
    let ku = k as usize;
    if st.skip > 0 {
        Some(LfaeScan { skip: (st.skip - 1) as nat, ..st })
    } else if c == '{' {
        let ind2 = if d == 1 {
            if ind.lhs_start == 0 {
                s_index { lhs_start: ku, ..ind }
            } else {
                s_index { rhs_start: ku, ..ind }
            }
        } else if d == 2 && ind.id_expr_start == 0 && ind.oper == 'w' {
            s_index { id_expr_start: ku, ..ind }
        } else {
            ind
        };
        Some(LfaeScan { ind: ind2, depth: d + 1, ..st })
    } else if c == '}' {
        let d2: nat = if d > 0 { (d - 1) as nat } else { 0 };
        if d2 == 1 {
            if ind.lhs_end == 0 {
                Some(LfaeScan { ind: s_index { lhs_end: ku, ..ind }, depth: d2, lhs_write: 2, ..st })
            } else {
                Some(LfaeScan { ind: s_index { rhs_end: ku, ..ind }, depth: d2, ..st })
            }
        } else if d2 == 2 && ind.id_expr_end == 0 && ind.oper == 'w' {
            Some(LfaeScan { ind: s_index { id_expr_end: ku, ..ind }, depth: d2, ..st })
        } else {
            Some(LfaeScan { depth: d2, ..st })
        }
    } else if d == 1 && ind.oper == ' ' && (c == '+' || c == '-') {
        Some(LfaeScan { ind: s_index { oper: c, ..ind }, ..st })
    } else if is_num_char(c) {
        if d <= 1 {
            if lw != 2 {
                let start = if ind.lhs_start == 0 && lw == 0 { ku } else { ind.lhs_start };
                if minus_before(b, k) && start == 0 {
                    None
                } else {
                    let start2 = if minus_before(b, k) { (start - 1) as usize } else { start };
                    Some(LfaeScan {
                        ind: s_index { lhs_start: start2, lhs_end: ku, ..ind },
                        lhs_write: 1,
                        ..st
                    })
                }
            } else {
                let start = if ind.rhs_start == 0 { ku } else { ind.rhs_start };
                if minus_before(b, k) && start == 0 {
                    None
                } else {
                    let start2 = if minus_before(b, k) { (start - 1) as usize } else { start };
                    Some(LfaeScan { ind: s_index { rhs_start: start2, rhs_end: ku, ..ind }, ..st })
                }
            }
        } else if d == 2 {
            Some(LfaeScan { ind: with_name_expr_index(b, ind, k), ..st })
        } else {
            Some(st)
        }
    } else if c == ' ' {
        if lw == 1 {
            Some(LfaeScan { lhs_write: 2, ..st })
        } else {
            Some(st)
        }
    } else if is_letter(c) {
        if c == 'f' && b.len() > k + 3 {
            if !(is_char_boundary(b, k) && is_char_boundary(b, k + 3)) {
                None
            } else if b.subrange(k, k + 3) == fun_bytes() {
                Some(keyword_step(st, 'f', 3))
            } else {
                Some(letter_step(k, st))
            }
        } else if c == 'w' && b.len() > k + 4 {
            if !(is_char_boundary(b, k) && is_char_boundary(b, k + 4)) {
                None
            } else if b.subrange(k, k + 4) == with_bytes() {
                Some(keyword_step(st, 'w', 4))
            } else {
                Some(letter_step(k, st))
            }
        } else {
            Some(letter_step(k, st))
        }
    } else {
        Some(st)
    }
}

/// The scan over the first `n` characters of `s`.
pub open spec fn lfae_scan_upto(s: Seq<char>, st0: LfaeScan, n: nat) -> Option<LfaeScan>
    decreases n,
{
    if n == 0 {
        Some(st0)
    } else {
        match lfae_scan_upto(s, st0, (n - 1) as nat) {
            Some(st) => lfae_step(s, n - 1, st),
            None => None,
        }
    }
}

/// Once the scan has panicked it stays so.
proof fn lemma_lfae_scan_stuck(s: Seq<char>, st0: LfaeScan, m: nat, n: nat)
    requires
        m <= n,
        lfae_scan_upto(s, st0, m) is None,
    ensures
        lfae_scan_upto(s, st0, n) is None,
    decreases n - m,
{
    if m < n {
        lemma_lfae_scan_stuck(s, st0, m, (n - 1) as nat);
    }
}

/// The positions that a whole scan of `s` leaves, starting from `ind`;
/// `None` where the scan panics.
pub open spec fn lfae_scan(s: Seq<char>, ind: s_index) -> Option<s_index> {
    match lfae_scan_upto(s, LfaeScan { ind, depth: 0, lhs_write: 0, skip: 0 }, s.len()) {
        Some(st) => Some(st.ind),
        None => None,
    }
}

/// Scans `s` and records in `ind_instance` where the parts of its outermost
/// form are and which form it is. Returns `false`, having stopped, exactly
/// where the scan would panic.
pub fn try_subst_index(s: &String, ind_instance: &mut s_index) -> (ok: bool)
    ensures
        ok == lfae_scan(s@, *old(ind_instance)) is Some,
        ok ==> *final(ind_instance) == lfae_scan(s@, *old(ind_instance))->0,
{
    let st = s.as_str();
    let b = st.as_bytes();
    proof {
        lemma_bytes_len(s@);
    }
    let ghost st0 = LfaeScan { ind: *ind_instance, depth: 0, lhs_write: 0, skip: 0 };
    let mut it = st.chars();
    let mut count: usize = 0;
    let mut depth: usize = 0;
    let mut lhs_write: u8 = 0;
    let mut skip: u8 = 0;
    loop
        invariant
            b@ == bytes_of(s@),
            st@ == s@,
            s@.len() <= b@.len(),
            count <= s@.len(),
            depth <= count,
            skip <= 3,
            it.remaining() == s@.skip(count as int),
            st0.ind == *old(ind_instance),
            st0.depth == 0,
            st0.lhs_write == 0,
            st0.skip == 0,
            lfae_scan_upto(s@, st0, count as nat) == Some(
                LfaeScan {
                    ind: *ind_instance,
                    depth: depth as nat,
                    lhs_write: lhs_write as int,
                    skip: skip as nat,
                },
            ),
        ensures
            count == s@.len(),
            lfae_scan_upto(s@, st0, count as nat) == Some(
                LfaeScan {
                    ind: *ind_instance,
                    depth: depth as nat,
                    lhs_write: lhs_write as int,
                    skip: skip as nat,
                },
            ),
        decreases s@.len() - count,
    {
        let next = it.next();
        let c = match next {
            None => {
                break ;
            },
            Some(c) => c,
        };
        assert(c == s@[count as int]);
        let ghost pre = LfaeScan {
            ind: *ind_instance,
            depth: depth as nat,
            lhs_write: lhs_write as int,
            skip: skip as nat,
        };
        let minus = count > 0 && b[count - 1] == 45u8;
        assert(minus == minus_before(b@, count as int));
        if skip > 0 {
            skip = skip - 1;
        } else if c == '{' {
            if depth == 1 {
                if ind_instance.lhs_start == 0 {
                    ind_instance.lhs_start = count;
                } else {
                    ind_instance.rhs_start = count;
                }
            } else if depth == 2 {
                if ind_instance.id_expr_start == 0 && ind_instance.oper == 'w' {
                    ind_instance.id_expr_start = count;
                }
            }
            depth = depth + 1;
        } else if c == '}' {
            if depth > 0 {
                depth = depth - 1;
            }
            if depth == 1 {
                if ind_instance.lhs_end == 0 {
                    ind_instance.lhs_end = count;
                    lhs_write = 2;
                } else {
                    ind_instance.rhs_end = count;
                }
            } else if depth == 2 {
                if ind_instance.id_expr_end == 0 && ind_instance.oper == 'w' {
                    ind_instance.id_expr_end = count;
                }
            }
        } else if depth == 1 && ind_instance.oper == ' ' && (c == '+' || c == '-') {
            ind_instance.oper = c;
        } else if ('0' <= c && c <= '9') || c == '.' {
            if depth <= 1 {
                if lhs_write != 2 {
                    if ind_instance.lhs_start == 0 && lhs_write == 0 {
                        ind_instance.lhs_start = count;
                    }
                    ind_instance.lhs_end = count;
                    if minus {
                        if ind_instance.lhs_start == 0 {
                            proof {
                                lemma_lfae_scan_stuck(s@, st0, (count + 1) as nat, s@.len());
                            }
                            return false;
                        }
                        ind_instance.lhs_start = ind_instance.lhs_start - 1;
                    }
                    lhs_write = 1;
                } else {
                    if ind_instance.rhs_start == 0 {
                        ind_instance.rhs_start = count;
                    }
                    ind_instance.rhs_end = count;
                    if minus {
                        if ind_instance.rhs_start == 0 {
                            proof {
                                lemma_lfae_scan_stuck(s@, st0, (count + 1) as nat, s@.len());
                            }
                            return false;
                        }
                        ind_instance.rhs_start = ind_instance.rhs_start - 1;
                    }
                }
            } else if depth == 2 {
                with_name_expr(s, ind_instance, count);
            }
        } else if c == ' ' {
            if lhs_write == 1 {
                lhs_write = 2;
            }
        } else if ('a' <= c && c <= 'z') || ('A' <= c && c <= 'Z') {
            let mut keyword = false;
            if c == 'f' && b.len() - count > 3 {
                if !(st.is_char_boundary(count) && st.is_char_boundary(count + 3)) {
                    proof {
                        lemma_lfae_scan_stuck(s@, st0, (count + 1) as nat, s@.len());
                    }
                    return false;
                }
                if b[count] == 102u8 && b[count + 1] == 117u8 && b[count + 2] == 110u8 {
                    assert(b@.subrange(count as int, count + 3) =~= fun_bytes());
                    if ind_instance.oper == ' ' && depth == 1 {
                        ind_instance.oper = 'f';
                    }
                    skip = 2;
                    keyword = true;
                } else {
                    assert(b@.subrange(count as int, count + 3) != fun_bytes()) by {
                        if b@.subrange(count as int, count + 3) == fun_bytes() {
                            assert(b@[count as int] == b@.subrange(count as int, count + 3)[0]);
                            assert(b@[count + 1] == b@.subrange(count as int, count + 3)[1]);
                            assert(b@[count + 2] == b@.subrange(count as int, count + 3)[2]);
                        }
                    }
                }
            } else if c == 'w' && b.len() - count > 4 {
                if !(st.is_char_boundary(count) && st.is_char_boundary(count + 4)) {
                    proof {
                        lemma_lfae_scan_stuck(s@, st0, (count + 1) as nat, s@.len());
                    }
                    return false;
                }
                if b[count] == 119u8 && b[count + 1] == 105u8 && b[count + 2] == 116u8 && b[count
                    + 3] == 104u8 {
                    assert(b@.subrange(count as int, count + 4) =~= with_bytes());
                    if ind_instance.oper == ' ' && depth == 1 {
                        ind_instance.oper = 'w';
                    }
                    skip = 3;
                    keyword = true;
                } else {
                    assert(b@.subrange(count as int, count + 4) != with_bytes()) by {
                        if b@.subrange(count as int, count + 4) == with_bytes() {
                            assert(b@[count as int] == b@.subrange(count as int, count + 4)[0]);
                            assert(b@[count + 1] == b@.subrange(count as int, count + 4)[1]);
                            assert(b@[count + 2] == b@.subrange(count as int, count + 4)[2]);
                            assert(b@[count + 3] == b@.subrange(count as int, count + 4)[3]);
                        }
                    }
                }
            }
            if !keyword {
                if (ind_instance.oper == 'w' || ind_instance.oper == 'f') && ind_instance.id == 0 {
                    ind_instance.id = count;
                } else if depth == 1 {
                    if lhs_write != 2 {
                        ind_instance.lhs_start = count;
                        ind_instance.lhs_end = count;
                        lhs_write = 2;
                    } else {
                        ind_instance.rhs_start = count;
                        ind_instance.rhs_end = count;
                    }
                } else if depth == 0 {
                    ind_instance.id = count;
                    ind_instance.oper = 'd';
                }
            }
        }
        assert(lfae_step(s@, count as int, pre) == Some(
            LfaeScan {
                ind: *ind_instance,
                depth: depth as nat,
                lhs_write: lhs_write as int,
                skip: skip as nat,
            },
        ));
        assert(s@.skip(count as int).drop_first() =~= s@.skip(count + 1));
        count = count + 1;
    }
    true
}

/// Scans `s` and records in `ind_instance` where the parts of its outermost
/// form are and which form it is.
pub fn subst_index(s: &String, ind_instance: &mut s_index)
    requires
        lfae_scan(s@, *old(ind_instance)) is Some,
    ensures
        *final(ind_instance) == lfae_scan(s@, *old(ind_instance))->0,
{
    let _ = try_subst_index(s, ind_instance);
}

/// The positions after `substring`: two operands without an operator make
/// an application, and a `-` without a right operand is the sign of a
/// number.
pub open spec fn substring_index(ind: s_index) -> s_index {
    let ind2 = if ind.rhs_start != 0 && ind.lhs_start != 0 && ind.oper == ' ' {
        s_index { oper: 'a', ..ind }
    } else {
        ind
    };
    if ind2.rhs_start == 0 && ind2.oper == '-' {
        s_index { oper: ' ', ..ind2 }
    } else {
        ind2
    }
}

/// All four parts can be cut out of `s`.
pub open spec fn parts_sliceable(s: Seq<char>, ind: s_index) -> bool {
    &&& can_slice(s, ind.lhs_start as int, ind.lhs_end + 1)
    &&& can_slice(s, ind.rhs_start as int, ind.rhs_end + 1)
    &&& can_slice(s, ind.id as int, ind.id + 1)
    &&& can_slice(s, ind.id_expr_start as int, ind.id_expr_end + 1)
}

/// Settles the form, then cuts the left operand, the right operand (or
/// body), the identifier and the named expression out of `s`, each up to and
/// including its end position.
pub fn substring(ind_instance: &mut s_index, s: &String) -> (res: (String, String, String, String))
    requires
        parts_sliceable(s@, *old(ind_instance)),
    ensures
        *final(ind_instance) == substring_index(*old(ind_instance)),
        res.0@ == text_slice(s@, old(ind_instance).lhs_start as int, old(ind_instance).lhs_end + 1),
        res.1@ == text_slice(s@, old(ind_instance).rhs_start as int, old(ind_instance).rhs_end + 1),
        res.2@ == text_slice(s@, old(ind_instance).id as int, old(ind_instance).id + 1),
        res.3@ == text_slice(
            s@,
            old(ind_instance).id_expr_start as int,
            old(ind_instance).id_expr_end + 1,
        ),
{
    if ind_instance.rhs_start != 0 && ind_instance.lhs_start != 0 && ind_instance.oper == ' ' {
        ind_instance.oper = 'a';
    }
    if ind_instance.rhs_start == 0 && ind_instance.oper == '-' {
        ind_instance.oper = ' ';
    }
    let st = s.as_str();
    let _n = st.as_bytes().len();
    let subs_lhs = slice_text(st, ind_instance.lhs_start, ind_instance.lhs_end + 1);
    let subs_rhs = slice_text(st, ind_instance.rhs_start, ind_instance.rhs_end + 1);
    let subs_id = slice_text(st, ind_instance.id, ind_instance.id + 1);
    let subs_id_expr = slice_text(st, ind_instance.id_expr_start, ind_instance.id_expr_end + 1);
    (subs_lhs, subs_rhs, subs_id, subs_id_expr)
}

/// Whether `substring` can cut all four parts out of `s`.
fn parts_fit(ind: &s_index, s: &String) -> (r: bool)
    ensures
        r == parts_sliceable(s@, *ind),
{
    let st = s.as_str();
    let n = st.as_bytes().len();
    if ind.lhs_end >= n || ind.rhs_end >= n || ind.id >= n || ind.id_expr_end >= n {
        return false;
    }
    try_slice_text(st, ind.lhs_start, ind.lhs_end + 1).is_some() && try_slice_text(
        st,
        ind.rhs_start,
        ind.rhs_end + 1,
    ).is_some() && try_slice_text(st, ind.id, ind.id + 1).is_some() && try_slice_text(
        st,
        ind.id_expr_start,
        ind.id_expr_end + 1,
    ).is_some()
}

/// The expression that `s` parses to; `None` where parsing panics (a scan
/// that fails, a part that cannot be cut out, a form with no case) or never
/// ends: a part with at least as many characters as the text is the text
/// itself (`text::law_long_part_is_whole`), parsed again and again. Number
/// literals are kept as written; whether they read as floats is not decided
/// here.
pub open spec fn spec_parse(s: Seq<char>) -> Option<LfaeV>
    decreases s.len(),
{
    match lfae_scan(s, start_index()) {
        None => None,
        Some(found) => {
            let ind = substring_index(found);
            if !parts_sliceable(s, found) {
                None
            } else {
                let lhs = text_slice(s, ind.lhs_start as int, ind.lhs_end + 1);
                let rhs = text_slice(s, ind.rhs_start as int, ind.rhs_end + 1);
                let id = text_slice(s, ind.id as int, ind.id + 1);
                let id_expr = text_slice(s, ind.id_expr_start as int, ind.id_expr_end + 1);
                if ind.oper == ' ' {
                    Some(LfaeV::Num(lhs))
                } else if ind.oper == '+' || ind.oper == '-' || ind.oper == 'a' {
                    if lhs.len() < s.len() && rhs.len() < s.len() {
                        match (spec_parse(lhs), spec_parse(rhs)) {
                            (Some(l), Some(r)) => if ind.oper == '+' {
                                Some(LfaeV::Add(Box::new(l), Box::new(r)))
                            } else if ind.oper == '-' {
                                Some(LfaeV::Sub(Box::new(l), Box::new(r)))
                            } else {
                                Some(LfaeV::App(Box::new(l), Box::new(r)))
                            },
                            _ => None,
                        }
                    } else {
                        None
                    }
                } else if ind.oper == 'w' {
                    if rhs.len() < s.len() && id_expr.len() < s.len() {
                        match (spec_parse(rhs), spec_parse(id_expr)) {
                            (Some(b), Some(v)) => Some(
                                LfaeV::App(Box::new(LfaeV::Fun(id, Box::new(b))), Box::new(v)),
                            ),
                            _ => None,
                        }
                    } else {
                        None
                    }
                } else if ind.oper == 'd' {
                    Some(LfaeV::Id(id))
                } else if ind.oper == 'f' {
                    if rhs.len() < s.len() {
                        match spec_parse(rhs) {
                            Some(b) => Some(LfaeV::Fun(id, Box::new(b))),
                            None => None,
                        }
                    } else {
                        None
                    }
                } else {
                    None
                }
            }
        },
    }
}

/// Parses `s`, or returns `None` exactly where parsing it panics or never
/// ends.
pub fn parse_checked(s: String) -> (res: Option<LFAE>)
    ensures
        res is Some <==> spec_parse(s@) is Some,
        res matches Some(e) ==> e@ == spec_parse(s@)->0,
    decreases s@.len(),
{
    let mut ind_instance = s_index {
        lhs_start: 0,
        lhs_end: 0,
        id_expr_start: 0,
        id_expr_end: 0,
        id: 0,
        rhs_start: 0,
        rhs_end: 0,
        oper: ' ',
    };
    if !try_subst_index(&s, &mut ind_instance) {
        return None;
    }
    if !parts_fit(&ind_instance, &s) {
        return None;
    }
    let (subs_lhs, subs_rhs, subs_id, subs_id_expr) = substring(&mut ind_instance, &s);
    let n = s.as_str().unicode_len();
    let oper = ind_instance.oper;
    if oper == ' ' {
        Some(LFAE::num(subs_lhs))
    } else if oper == '+' || oper == '-' || oper == 'a' {
        if subs_lhs.as_str().unicode_len() >= n || subs_rhs.as_str().unicode_len() >= n {
            return None;
        }
        let l = match parse_checked(subs_lhs) {
            Some(l) => l,
            None => {
                return None;
            },
        };
        let r = match parse_checked(subs_rhs) {
            Some(r) => r,
            None => {
                return None;
            },
        };
        if oper == '+' {
            Some(LFAE::Add(Box::new(l), Box::new(r)))
        } else if oper == '-' {
            Some(LFAE::Sub(Box::new(l), Box::new(r)))
        } else {
            Some(LFAE::app(Box::new(l), Box::new(r)))
        }
    } else if oper == 'w' {
        if subs_rhs.as_str().unicode_len() >= n || subs_id_expr.as_str().unicode_len() >= n {
            return None;
        }
        let b = match parse_checked(subs_rhs) {
            Some(b) => b,
            None => {
                return None;
            },
        };
        let v = match parse_checked(subs_id_expr) {
            Some(v) => v,
            None => {
                return None;
            },
        };
        let f = LFAE::fun(subs_id, Box::new(b));
        assert(f@ == LfaeV::Fun(subs_id@, Box::new(b@)));
        Some(LFAE::app(Box::new(f), Box::new(v)))
    } else if oper == 'd' {
        Some(LFAE::id(subs_id))
    } else if oper == 'f' {
        if subs_rhs.as_str().unicode_len() >= n {
            return None;
        }
        match parse_checked(subs_rhs) {
            Some(b) => Some(LFAE::fun(subs_id, Box::new(b))),
            None => None,
        }
    } else {
        None
    }
}

/// Parses `s`: a number, an identifier, `{+ l r}`, `{- l r}`,
/// `{fun {x} body}`, `{f a}` or `{with {x e} body}`, with the parts parsed in
/// turn.
pub fn parse(s: String) -> (res: LFAE)
    requires
        spec_parse(s@) is Some,
    ensures
        res@ == spec_parse(s@)->0,
{
    match parse_checked(s) {
        Some(e) => e,
        None => {
            proof {
                assert(false);
            }
            LFAE::Nil
        },
    }
}

/// The value bound to `name`, or the identifier itself when it is unbound.
/// A closure found this way is handed the bindings older than its own
/// binding.
pub open spec fn spec_lookup(name: Seq<char>, ds: DefrdV) -> LfaeV
    decreases ds,
{
    match ds {
        DefrdV::MtSub => LfaeV::Id(name),
        DefrdV::ASub(i, v, rest) => if i == name {
            match *v {
                LfaeV::ClosureV(p, b, _) => LfaeV::ClosureV(p, b, rest),
                _ => *v,
            }
        } else {
            spec_lookup(name, *rest)
        },
    }
}

/// Looks `name` up in the bindings `saved`, most recent first.
pub fn lookup(name: String, saved: Defrd) -> (res: LFAE)
    ensures
        res@ == spec_lookup(name@, saved@),
    decreases saved,
{
    match saved {
        Defrd::mtSub => LFAE::id(name),
        Defrd::aSub(i, v, saved) => {
            if i == name {
                let ghost vm = v@;
                match *v {
                    LFAE::closureV(s, b, d) => {
                        assert(vm == LfaeV::ClosureV(s@, Box::new(b@), Box::new(d@)));
                        LFAE::closureV(s, b, saved)
                    },
                    other => other,
                }
            } else {
                lookup(name, *saved)
            }
        },
    }
}

/// The literal of the number a non-function is applied as: zero.
pub open spec fn zero_lit() -> Seq<char> {
    seq!['0']
}

/// What an application runs: the body of the closure applied, or the number
/// zero when the function position is no closure.
pub open spec fn callee_body(fv: LfaeV) -> LfaeV {
    match fv {
        LfaeV::ClosureV(_, b, _) => *b,
        _ => LfaeV::Num(zero_lit()),
    }
}

/// The bindings an application runs under: the closure's parameter bound to
/// a thunk of the argument over the caller's bindings `ds`, in front of the
/// closure's own bindings (no parameter and no bindings when the function
/// position is no closure).
pub open spec fn callee_env(fv: LfaeV, a: LfaeV, ds: DefrdV) -> DefrdV {
    let thunk = LfaeV::ExprV(Box::new(a), Box::new(ds), Box::new(LfaeV::Nil));
    match fv {
        LfaeV::ClosureV(p, _, d) => DefrdV::ASub(p, Box::new(thunk), d),
        _ => DefrdV::ASub(Seq::empty(), Box::new(thunk), Box::new(DefrdV::MtSub)),
    }
}

/// The value of `e` under the bindings `ds` with at most `fuel` nested
/// evaluation steps; `None` when the steps run out or evaluation panics (a
/// value in expression position).
pub open spec fn spec_interp(e: LfaeV, ds: DefrdV, fuel: nat) -> Option<LfaeV>
    decreases fuel, 2nat,
{
    if fuel == 0 {
        None
    } else {
        let f = (fuel - 1) as nat;
        match e {
            LfaeV::Num(n) => Some(LfaeV::NumV(NumV::Lit(n))),
            LfaeV::Add(l, r) => match spec_interp(*l, ds, f) {
                Some(a) => match spec_interp(*r, ds, f) {
                    Some(b) => spec_arith(a, b, f, true),
                    None => None,
                },
                None => None,
            },
            LfaeV::Sub(l, r) => match spec_interp(*l, ds, f) {
                Some(a) => match spec_interp(*r, ds, f) {
                    Some(b) => spec_arith(a, b, f, false),
                    None => None,
                },
                None => None,
            },
            LfaeV::Id(s) => Some(spec_lookup(s, ds)),
            LfaeV::Fun(p, b) => Some(LfaeV::ClosureV(p, b, Box::new(ds))),
            LfaeV::App(fe, a) => match spec_interp(*fe, ds, f) {
                Some(fv0) => match spec_strict(fv0, f) {
                    Some(fv) => spec_interp(callee_body(fv), callee_env(fv, *a, ds), f),
                    None => None,
                },
                None => None,
            },
            _ => None,
        }
    }
}

/// Forces a value with at most `fuel` nested steps: a thunk whose box is
/// empty is evaluated (and the result forced), one whose box is filled gives
/// the box's content, anything else is already a value.
pub open spec fn spec_strict(v: LfaeV, fuel: nat) -> Option<LfaeV>
    decreases fuel, 0nat,
{
    if fuel == 0 {
        None
    } else {
        let f = (fuel - 1) as nat;
        match v {
            LfaeV::ExprV(e, ds, bx) => if *bx is Nil {
                match spec_interp(*e, *ds, f) {
                    Some(r) => spec_strict(r, f),
                    None => None,
                }
            } else {
                Some(*bx)
            },
            _ => Some(v),
        }
    }
}

/// Adds (`plus`) or subtracts two values after forcing both: a number when
/// both are numbers, else the operation kept on the forced values.
pub open spec fn spec_arith(l: LfaeV, r: LfaeV, fuel: nat, plus: bool) -> Option<LfaeV>
    decreases fuel, 1nat,
{
    match spec_strict(l, fuel) {
        Some(a) => match spec_strict(r, fuel) {
            Some(b) => Some(
                match (a, b) {
                    (LfaeV::NumV(d), LfaeV::NumV(s)) => if plus {
                        LfaeV::NumV(NumV::Plus(Box::new(d), Box::new(s)))
                    } else {
                        LfaeV::NumV(NumV::Minus(Box::new(d), Box::new(s)))
                    },
                    _ => if plus {
                        LfaeV::Add(Box::new(a), Box::new(b))
                    } else {
                        LfaeV::Sub(Box::new(a), Box::new(b))
                    },
                },
            ),
            None => None,
        },
        None => None,
    }
}

/// Evaluates `ae` under `ds` with at most `fuel` nested steps; `None`
/// exactly where the steps run out or evaluation panics.
pub fn interp_bounded(ae: LFAE, ds: Defrd, fuel: u64) -> (res: Option<LFAE>)
    ensures
        res is Some <==> spec_interp(ae@, ds@, fuel as nat) is Some,
        res matches Some(v) ==> v@ == spec_interp(ae@, ds@, fuel as nat)->0,
    decreases fuel, 2nat,
{
    if fuel == 0 {
        return None;
    }
    let f = fuel - 1;
    match ae {
        LFAE::num(n) => Some(LFAE::numV(Num::Lit(n))),
        LFAE::Add(l, r) => {
            let a = match interp_bounded(*l, ds.duplicate(), f) {
                Some(a) => a,
                None => {
                    return None;
                },
            };
            let b = match interp_bounded(*r, ds, f) {
                Some(b) => b,
                None => {
                    return None;
                },
            };
            arith_bounded(a, b, f, true)
        },
        LFAE::Sub(l, r) => {
            let a = match interp_bounded(*l, ds.duplicate(), f) {
                Some(a) => a,
                None => {
                    return None;
                },
            };
            let b = match interp_bounded(*r, ds, f) {
                Some(b) => b,
                None => {
                    return None;
                },
            };
            arith_bounded(a, b, f, false)
        },
        LFAE::id(s) => Some(lookup(s, ds)),
        LFAE::fun(p, b) => Some(LFAE::closureV(p, b, Box::new(ds))),
        LFAE::app(fe, a) => {
            let fv0 = match interp_bounded(*fe, ds.duplicate(), f) {
                Some(v) => v,
                None => {
                    return None;
                },
            };
            let fv = match strict_bounded(fv0, f) {
                Some(v) => v,
                None => {
                    return None;
                },
            };
            let ghost fv_model = fv@;
            let ghost am = a@;
            let ghost dsm = ds@;
            let nil = LFAE::Nil;
            assert(nil@ == LfaeV::Nil);
            let a_val = LFAE::exprV(a, Box::new(ds), Box::new(nil));
            assert(a_val@ == LfaeV::ExprV(Box::new(am), Box::new(dsm), Box::new(LfaeV::Nil)));
            let (body, env) = match fv {
                LFAE::closureV(p, b, d) => {
                    assert(fv_model == LfaeV::ClosureV(p@, Box::new(b@), Box::new(d@)));
                    let env = Defrd::aSub(p, Box::new(a_val), d);
                    (*b, env)
                },
                _ => {
                    let zero = "0".to_owned();
                    proof {
                        reveal_strlit("0");
                    }
                    assert(zero@ == zero_lit());
                    let env = Defrd::aSub(String::new(), Box::new(a_val), Box::new(Defrd::mtSub));
                    (LFAE::num(zero), env)
                },
            };
            assert(body@ == callee_body(fv_model));
            assert(env@ == callee_env(fv_model, am, dsm));
            interp_bounded(body, env, f)
        },
        _ => None,
    }
}

/// Forces `v` with at most `fuel` nested steps; `None` exactly where the
/// steps run out or evaluation panics.
pub fn strict_bounded(v: LFAE, fuel: u64) -> (res: Option<LFAE>)
    ensures
        res is Some <==> spec_strict(v@, fuel as nat) is Some,
        res matches Some(r) ==> r@ == spec_strict(v@, fuel as nat)->0,
    decreases fuel, 0nat,
{
    if fuel == 0 {
        return None;
    }
    let f = fuel - 1;
    let ghost vm = v@;
    match v {
        LFAE::exprV(expr, ds, bx) => {
            assert(vm == LfaeV::ExprV(Box::new(expr@), Box::new(ds@), Box::new(bx@)));
            if let LFAE::Nil = *bx {
                match interp_bounded(*expr, *ds, f) {
                    Some(r) => strict_bounded(r, f),
                    None => None,
                }
            } else {
                Some(*bx)
            }
        },
        other => Some(other),
    }
}

/// Adds (`plus`) or subtracts `l` and `r` after forcing both, with at most
/// `fuel` nested steps for each.
fn arith_bounded(l: LFAE, r: LFAE, fuel: u64, plus: bool) -> (res: Option<LFAE>)
    ensures
        res is Some <==> spec_arith(l@, r@, fuel as nat, plus) is Some,
        res matches Some(v) ==> v@ == spec_arith(l@, r@, fuel as nat, plus)->0,
    decreases fuel, 1nat,
{
    let a = match strict_bounded(l, fuel) {
        Some(a) => a,
        None => {
            return None;
        },
    };
    let b = match strict_bounded(r, fuel) {
        Some(b) => b,
        None => {
            return None;
        },
    };
    let ghost am = a@;
    let ghost bm = b@;
    match (a, b) {
        (LFAE::numV(d), LFAE::numV(s)) => {
            if plus {
                Some(LFAE::numV(Num::Plus(Box::new(d), Box::new(s))))
            } else {
                Some(LFAE::numV(Num::Minus(Box::new(d), Box::new(s))))
            }
        },
        (a, b) => {
            assert(!(am is NumV && bm is NumV));
            if plus {
                Some(LFAE::Add(Box::new(a), Box::new(b)))
            } else {
                Some(LFAE::Sub(Box::new(a), Box::new(b)))
            }
        },
    }
}

/// The step budget of the operations without one: the largest `u64`, a
/// nesting depth no run reaches before the machine's stack is exhausted.
pub open spec fn step_limit() -> nat {
    u64::MAX as nat
}

/// Forces `v`: evaluates a pending thunk, returns anything else as it is.
pub fn strict(v: LFAE) -> (res: LFAE)
    requires
        spec_strict(v@, step_limit()) is Some,
    ensures
        res@ == spec_strict(v@, step_limit())->0,
{
    match strict_bounded(v, u64::MAX) {
        Some(r) => r,
        None => {
            proof {
                assert(false);
            }
            LFAE::Nil
        },
    }
}

/// Forces both operands; their sum when both are numbers, else `{+ l r}` on
/// the forced operands.
pub fn num_plus(l: LFAE, r: LFAE) -> (res: LFAE)
    requires
        spec_strict(l@, step_limit()) is Some,
        spec_strict(r@, step_limit()) is Some,
    ensures
        res@ == spec_arith(l@, r@, step_limit(), true)->0,
{
    match arith_bounded(l, r, u64::MAX, true) {
        Some(v) => v,
        None => {
            proof {
                assert(false);
            }
            LFAE::Nil
        },
    }
}

/// Forces both operands; their difference when both are numbers, else
/// `{- l r}` on the forced operands.
pub fn num_minus(l: LFAE, r: LFAE) -> (res: LFAE)
    requires
        spec_strict(l@, step_limit()) is Some,
        spec_strict(r@, step_limit()) is Some,
    ensures
        res@ == spec_arith(l@, r@, step_limit(), false)->0,
{
    match arith_bounded(l, r, u64::MAX, false) {
        Some(v) => v,
        None => {
            proof {
                assert(false);
            }
            LFAE::Nil
        },
    }
}

/// Evaluates `ae` under the bindings `ds`: numbers, sums and differences,
/// identifiers by lookup, functions to closures, applications by binding
/// the parameter to a thunk of the argument.
pub fn interp(ae: LFAE, ds: Defrd) -> (res: LFAE)
    requires
        spec_interp(ae@, ds@, step_limit()) is Some,
    ensures
        res@ == spec_interp(ae@, ds@, step_limit())->0,
{
    match interp_bounded(ae, ds, u64::MAX) {
        Some(v) => v,
        None => {
            proof {
                assert(false);
            }
            LFAE::Nil
        },
    }
}

/// More steps never change an evaluation that finished: once `e` has a value
/// under `ds` within `f1` steps, it has the same value within any `f2 >= f1`.
pub proof fn law_interp_fuel_monotone(e: LfaeV, ds: DefrdV, f1: nat, f2: nat)
    requires
        f1 <= f2,
        spec_interp(e, ds, f1) is Some,
    ensures
        spec_interp(e, ds, f2) == spec_interp(e, ds, f1),
    decreases f1, 2nat,
{
    let g1 = (f1 - 1) as nat;
    let g2 = (f2 - 1) as nat;
    match e {
        LfaeV::Add(l, r) => {
            law_interp_fuel_monotone(*l, ds, g1, g2);
            law_interp_fuel_monotone(*r, ds, g1, g2);
            let a = spec_interp(*l, ds, g1)->0;
            let b = spec_interp(*r, ds, g1)->0;
            law_arith_fuel_monotone(a, b, g1, g2, true);
        },
        LfaeV::Sub(l, r) => {
            law_interp_fuel_monotone(*l, ds, g1, g2);
            law_interp_fuel_monotone(*r, ds, g1, g2);
            let a = spec_interp(*l, ds, g1)->0;
            let b = spec_interp(*r, ds, g1)->0;
            law_arith_fuel_monotone(a, b, g1, g2, false);
        },
        LfaeV::App(fe, a) => {
            law_interp_fuel_monotone(*fe, ds, g1, g2);
            let fv0 = spec_interp(*fe, ds, g1)->0;
            law_strict_fuel_monotone(fv0, g1, g2);
            let fv = spec_strict(fv0, g1)->0;
            law_interp_fuel_monotone(callee_body(fv), callee_env(fv, *a, ds), g1, g2);
        },
        _ => {},
    }
}

/// More steps never change a forcing that finished.
pub proof fn law_strict_fuel_monotone(v: LfaeV, f1: nat, f2: nat)
    requires
        f1 <= f2,
        spec_strict(v, f1) is Some,
    ensures
        spec_strict(v, f2) == spec_strict(v, f1),
    decreases f1, 0nat,
{
    let g1 = (f1 - 1) as nat;
    let g2 = (f2 - 1) as nat;
    match v {
        LfaeV::ExprV(e, ds, bx) => {
            if *bx is Nil {
                law_interp_fuel_monotone(*e, *ds, g1, g2);
                let r = spec_interp(*e, *ds, g1)->0;
                law_strict_fuel_monotone(r, g1, g2);
            }
        },
        _ => {},
    }
}

/// More steps never change an addition or subtraction that finished.
pub proof fn law_arith_fuel_monotone(l: LfaeV, r: LfaeV, f1: nat, f2: nat, plus: bool)
    requires
        f1 <= f2,
        spec_arith(l, r, f1, plus) is Some,
    ensures
        spec_arith(l, r, f2, plus) == spec_arith(l, r, f1, plus),
    decreases f1, 1nat,
{
    law_strict_fuel_monotone(l, f1, f2);
    law_strict_fuel_monotone(r, f1, f2);
}

/// Looking a name up: an unbound name stays an identifier; the most recent
/// binding of the name decides (a closure found is handed the bindings older
/// than its own); bindings of other names are passed over.
pub proof fn law_lookup_most_recent(
    name: Seq<char>,
    other: Seq<char>,
    v: LfaeV,
    rest: DefrdV,
)
    ensures
        spec_lookup(name, DefrdV::MtSub) == LfaeV::Id(name),
        spec_lookup(name, DefrdV::ASub(name, Box::new(v), Box::new(rest))) == match v {
            LfaeV::ClosureV(p, b, _) => LfaeV::ClosureV(p, b, Box::new(rest)),
            _ => v,
        },
        other != name ==> spec_lookup(name, DefrdV::ASub(other, Box::new(v), Box::new(rest)))
            == spec_lookup(name, rest),
{
}

/// Forcing anything but a thunk gives it back unchanged.
pub proof fn law_strict_of_value(v: LfaeV, fuel: nat)
    requires
        fuel > 0,
        !(v is ExprV),
    ensures
        spec_strict(v, fuel) == Some(v),
{
}

/// The forms a scan can find, starting from no form: a number, `+`, `-`,
/// `with`, `fun`, or an identifier; `substring` adds application.
pub open spec fn is_lfae_form(c: char) -> bool {
    c == ' ' || c == '+' || c == '-' || c == 'w' || c == 'f' || c == 'd' || c == 'a'
}

proof fn lemma_lfae_scan_form(s: Seq<char>, st0: LfaeScan, n: nat)
    requires
        is_lfae_form(st0.ind.oper),
    ensures
        lfae_scan_upto(s, st0, n) matches Some(st) ==> is_lfae_form(st.ind.oper),
    decreases n,
{
    if n > 0 {
        lemma_lfae_scan_form(s, st0, (n - 1) as nat);
    }
}

/// A scan from the parser's start finds one of the forms the parser handles,
/// so parsing never reaches its last, failing, case.
pub proof fn law_lfae_scan_form(s: Seq<char>)
    ensures
        lfae_scan(s, start_index()) matches Some(ind) ==> is_lfae_form(substring_index(ind).oper),
{
    lemma_lfae_scan_form(s, LfaeScan { ind: start_index(), depth: 0, lhs_write: 0, skip: 0 }, s.len());
}

/// The equations of the evaluator without a step budget: a number gives its
/// value, a function its closure over the current bindings, an identifier
/// what it looks up to; a sum or difference evaluates both operands and
/// combines them (`num_plus`, `num_minus`); an application forces the
/// function and runs the callee's body with the argument bound, unevaluated,
/// over the caller's bindings.
pub proof fn law_interp_equations(e: LfaeV, ds: DefrdV)
    ensures
        e matches LfaeV::Num(n) ==> spec_interp(e, ds, step_limit()) == Some(
            LfaeV::NumV(NumV::Lit(n)),
        ),
        e matches LfaeV::Fun(p, b) ==> spec_interp(e, ds, step_limit()) == Some(
            LfaeV::ClosureV(p, b, Box::new(ds)),
        ),
        e matches LfaeV::Id(x) ==> spec_interp(e, ds, step_limit()) == Some(spec_lookup(x, ds)),
        e matches LfaeV::Add(l, r) ==> spec_interp(e, ds, step_limit()) is Some ==> spec_interp(
            e,
            ds,
            step_limit(),
        ) == spec_arith(
            spec_interp(*l, ds, step_limit())->0,
            spec_interp(*r, ds, step_limit())->0,
            step_limit(),
            true,
        ),
        e matches LfaeV::Sub(l, r) ==> spec_interp(e, ds, step_limit()) is Some ==> spec_interp(
            e,
            ds,
            step_limit(),
        ) == spec_arith(
            spec_interp(*l, ds, step_limit())->0,
            spec_interp(*r, ds, step_limit())->0,
            step_limit(),
            false,
        ),
        e matches LfaeV::App(f, a) ==> spec_interp(e, ds, step_limit()) is Some ==> {
            let fv = spec_strict(spec_interp(*f, ds, step_limit())->0, step_limit())->0;
            spec_interp(e, ds, step_limit()) == spec_interp(
                callee_body(fv),
                callee_env(fv, *a, ds),
                step_limit(),
            )
        },
        e matches LfaeV::App(f, a) ==> spec_interp(e, ds, step_limit()) is Some ==> (spec_strict(
            spec_interp(*f, ds, step_limit())->0,
            step_limit(),
        )->0 matches LfaeV::ClosureV(p, b, d) ==> spec_interp(e, ds, step_limit()) == spec_interp(
            *b,
            DefrdV::ASub(p, Box::new(LfaeV::ExprV(a, Box::new(ds), Box::new(LfaeV::Nil))), d),
            step_limit(),
        )),
        e matches LfaeV::App(f, a) ==> spec_interp(e, ds, step_limit()) is Some ==> (!(spec_strict(
            spec_interp(*f, ds, step_limit())->0,
            step_limit(),
        )->0 is ClosureV) ==> spec_interp(e, ds, step_limit()) == Some(
            LfaeV::NumV(NumV::Lit(seq!['0'])),
        )),
{
    let lim = step_limit();
    let g = (lim - 1) as nat;
    if spec_interp(e, ds, lim) is Some {
        match e {
            LfaeV::Add(l, r) => {
                law_interp_fuel_monotone(*l, ds, g, lim);
                law_interp_fuel_monotone(*r, ds, g, lim);
                let a = spec_interp(*l, ds, g)->0;
                let b = spec_interp(*r, ds, g)->0;
                law_arith_fuel_monotone(a, b, g, lim, true);
            },
            LfaeV::Sub(l, r) => {
                law_interp_fuel_monotone(*l, ds, g, lim);
                law_interp_fuel_monotone(*r, ds, g, lim);
                let a = spec_interp(*l, ds, g)->0;
                let b = spec_interp(*r, ds, g)->0;
                law_arith_fuel_monotone(a, b, g, lim, false);
            },
            LfaeV::App(f, a) => {
                law_interp_fuel_monotone(*f, ds, g, lim);
                let fv0 = spec_interp(*f, ds, g)->0;
                law_strict_fuel_monotone(fv0, g, lim);
                let fv = spec_strict(fv0, g)->0;
                law_interp_fuel_monotone(callee_body(fv), callee_env(fv, *a, ds), g, lim);
                if !(fv is ClosureV) {
                    assert(callee_body(fv) == LfaeV::Num(seq!['0']));
                }
            },
            _ => {},
        }
    }
}

/// Evaluation with `f + 1` steps, form by form: with no step left nothing
/// has a value; a number gives its value, an identifier what it looks up to,
/// a function its closure over the current bindings; a value in expression
/// position has none; a sum or difference evaluates the left operand, then
/// the right, each with `f` steps, and adds or subtracts them in that order.
pub proof fn law_interp_structure(
    n: Seq<char>,
    x: Seq<char>,
    p: Seq<char>,
    b: LfaeV,
    l: LfaeV,
    r: LfaeV,
    v: LfaeV,
    ds: DefrdV,
    f: nat,
)
    ensures
        spec_interp(l, ds, 0) is None,
        spec_interp(LfaeV::Num(n), ds, f + 1) == Some(LfaeV::NumV(NumV::Lit(n))),
        spec_interp(LfaeV::Id(x), ds, f + 1) == Some(spec_lookup(x, ds)),
        spec_interp(LfaeV::Fun(p, Box::new(b)), ds, f + 1) == Some(
            LfaeV::ClosureV(p, Box::new(b), Box::new(ds)),
        ),
        v is NumV || v is ClosureV || v is ExprV || v is Nil ==> spec_interp(v, ds, f + 1) is None,
        spec_interp(LfaeV::Add(Box::new(l), Box::new(r)), ds, f + 1) == match (
            spec_interp(l, ds, f),
            spec_interp(r, ds, f),
        ) {
            (Some(a), Some(c)) => spec_arith(a, c, f, true),
            _ => None,
        },
        spec_interp(LfaeV::Sub(Box::new(l), Box::new(r)), ds, f + 1) == match (
            spec_interp(l, ds, f),
            spec_interp(r, ds, f),
        ) {
            (Some(a), Some(c)) => spec_arith(a, c, f, false),
            _ => None,
        },
{
}

/// Applying a function with `f + 1` steps: the function position is
/// evaluated and forced with `f` steps each. A closure `ClosureV(p, b, d)`
/// runs its body `b` with `p` bound to a thunk of the argument over the
/// caller's bindings `ds`, in front of the closure's own bindings `d`, so a
/// binding visible where the function was made stays visible in its body.
/// Anything else in function position gives the number zero.
pub proof fn law_interp_app(fe: LfaeV, a: LfaeV, ds: DefrdV, f: nat)
    ensures
        spec_interp(fe, ds, f) is None ==> spec_interp(
            LfaeV::App(Box::new(fe), Box::new(a)),
            ds,
            f + 1,
        ) is None,
        spec_interp(fe, ds, f) matches Some(fv0) ==> (spec_strict(fv0, f) is None ==> spec_interp(
            LfaeV::App(Box::new(fe), Box::new(a)),
            ds,
            f + 1,
        ) is None),
        spec_interp(fe, ds, f) matches Some(fv0) ==> (spec_strict(fv0, f) matches Some(
            LfaeV::ClosureV(p, body, d),
        ) ==> spec_interp(LfaeV::App(Box::new(fe), Box::new(a)), ds, f + 1) == spec_interp(
            *body,
            DefrdV::ASub(
                p,
                Box::new(LfaeV::ExprV(Box::new(a), Box::new(ds), Box::new(LfaeV::Nil))),
                d,
            ),
            f,
        )),
        spec_interp(fe, ds, f) matches Some(fv0) ==> (spec_strict(fv0, f) matches Some(fv) ==> (!(
        fv is ClosureV) ==> spec_interp(LfaeV::App(Box::new(fe), Box::new(a)), ds, f + 1) == if f
            > 0 {
            Some(LfaeV::NumV(NumV::Lit(seq!['0'])))
        } else {
            None
        })),
{
    if let Some(fv0) = spec_interp(fe, ds, f) {
        if let Some(fv) = spec_strict(fv0, f) {
            if !(fv is ClosureV) {
                assert(callee_body(fv) == LfaeV::Num(seq!['0']));
                assert(spec_interp(LfaeV::Num(seq!['0']), callee_env(fv, a, ds), f) == if f > 0 {
                    Some(LfaeV::NumV(NumV::Lit(seq!['0'])))
                } else {
                    None
                });
            }
        }
    }
}

/// Forcing with `f + 1` steps: with no step left nothing is forced;
/// anything but a thunk is already a value; a thunk whose box is filled
/// gives the box's content; one whose box is empty evaluates its expression
/// under its own bindings with `f` steps and forces the result.
pub proof fn law_strict_structure(v: LfaeV, e: LfaeV, d: DefrdV, bx: LfaeV, f: nat)
    ensures
        spec_strict(v, 0) is None,
        !(v is ExprV) ==> spec_strict(v, f + 1) == Some(v),
        !(bx is Nil) ==> spec_strict(
            LfaeV::ExprV(Box::new(e), Box::new(d), Box::new(bx)),
            f + 1,
        ) == Some(bx),
        spec_strict(LfaeV::ExprV(Box::new(e), Box::new(d), Box::new(LfaeV::Nil)), f + 1)
            == match spec_interp(e, d, f) {
            Some(c) => spec_strict(c, f),
            None => None,
        },
{
}

/// Adding or subtracting two values forces the left one, then the right one.
/// When both forced values are numbers `dl` and `dr`, whatever their shape,
/// the sum is the number `dl` plus `dr` and the difference `dl` minus `dr`;
/// otherwise the operation is kept on the forced values; when either cannot
/// be forced there is no result.
pub proof fn law_arith_structure(l: LfaeV, r: LfaeV, f: nat)
    ensures
        spec_strict(l, f) is None || spec_strict(r, f) is None ==> spec_arith(l, r, f, true) is None
            && spec_arith(l, r, f, false) is None,
        spec_strict(l, f) matches Some(LfaeV::NumV(dl)) ==> (spec_strict(r, f) matches Some(
            LfaeV::NumV(dr),
        ) ==> spec_arith(l, r, f, true) == Some(
            LfaeV::NumV(NumV::Plus(Box::new(dl), Box::new(dr))),
        ) && spec_arith(l, r, f, false) == Some(
            LfaeV::NumV(NumV::Minus(Box::new(dl), Box::new(dr))),
        )),
        spec_strict(l, f) matches Some(a) ==> (spec_strict(r, f) matches Some(c) ==> (!(a is NumV
            && c is NumV) ==> spec_arith(l, r, f, true) == Some(
            LfaeV::Add(Box::new(a), Box::new(c)),
        ) && spec_arith(l, r, f, false) == Some(LfaeV::Sub(Box::new(a), Box::new(c))))),
{
}

/// On two number values `dl` and `dr`, whatever their shape, `num_plus`
/// gives the number `dl` plus `dr` and `num_minus` the number `dl` minus
/// `dr`.
pub proof fn law_arith_of_numbers(dl: NumV, dr: NumV)
    ensures
        spec_arith(LfaeV::NumV(dl), LfaeV::NumV(dr), step_limit(), true) == Some(
            LfaeV::NumV(NumV::Plus(Box::new(dl), Box::new(dr))),
        ),
        spec_arith(LfaeV::NumV(dl), LfaeV::NumV(dr), step_limit(), false) == Some(
            LfaeV::NumV(NumV::Minus(Box::new(dl), Box::new(dr))),
        ),
{
}

/// The models of expressions, values and bindings are built node by node,
/// each part in its place.
pub proof fn law_lfae_view_structure(
    n: String,
    s: String,
    num: Num,
    e: LFAE,
    l: LFAE,
    r: LFAE,
    d: Defrd,
)
    ensures
        lfae_view(LFAE::num(n)) == LfaeV::Num(n@),
        lfae_view(LFAE::Add(Box::new(l), Box::new(r))) == LfaeV::Add(
            Box::new(lfae_view(l)),
            Box::new(lfae_view(r)),
        ),
        lfae_view(LFAE::Sub(Box::new(l), Box::new(r))) == LfaeV::Sub(
            Box::new(lfae_view(l)),
            Box::new(lfae_view(r)),
        ),
        lfae_view(LFAE::id(s)) == LfaeV::Id(s@),
        lfae_view(LFAE::fun(s, Box::new(e))) == LfaeV::Fun(s@, Box::new(lfae_view(e))),
        lfae_view(LFAE::app(Box::new(l), Box::new(r))) == LfaeV::App(
            Box::new(lfae_view(l)),
            Box::new(lfae_view(r)),
        ),
        lfae_view(LFAE::numV(num)) == LfaeV::NumV(num@),
        lfae_view(LFAE::closureV(s, Box::new(e), Box::new(d))) == LfaeV::ClosureV(
            s@,
            Box::new(lfae_view(e)),
            Box::new(defrd_view(d)),
        ),
        lfae_view(LFAE::exprV(Box::new(e), Box::new(d), Box::new(r))) == LfaeV::ExprV(
            Box::new(lfae_view(e)),
            Box::new(defrd_view(d)),
            Box::new(lfae_view(r)),
        ),
        lfae_view(LFAE::Nil) == LfaeV::Nil,
        defrd_view(Defrd::mtSub) == DefrdV::MtSub,
        defrd_view(Defrd::aSub(s, Box::new(e), Box::new(d))) == DefrdV::ASub(
            s@,
            Box::new(lfae_view(e)),
            Box::new(defrd_view(d)),
        ),
{
}

/// Forcing a thunk whose box is empty evaluates its expression under its
/// bindings and forces the result.
pub proof fn law_strict_thunk(e: LfaeV, ds: DefrdV)
    ensures
        spec_strict(LfaeV::ExprV(Box::new(e), Box::new(ds), Box::new(LfaeV::Nil)), step_limit())
            is Some ==> spec_strict(
            LfaeV::ExprV(Box::new(e), Box::new(ds), Box::new(LfaeV::Nil)),
            step_limit(),
        ) == spec_strict(spec_interp(e, ds, step_limit())->0, step_limit()),
{
    let lim = step_limit();
    let g = (lim - 1) as nat;
    let v = LfaeV::ExprV(Box::new(e), Box::new(ds), Box::new(LfaeV::Nil));
    if spec_strict(v, lim) is Some {
        law_interp_fuel_monotone(e, ds, g, lim);
        let r = spec_interp(e, ds, g)->0;
        law_strict_fuel_monotone(r, g, lim);
    }
}

/// Every thunk in a value or in the bindings it holds has an empty box.
pub open spec fn boxes_empty(v: LfaeV) -> bool
    decreases v,
{
    match v {
        LfaeV::Num(_) => true,
        LfaeV::Add(l, r) => boxes_empty(*l) && boxes_empty(*r),
        LfaeV::Sub(l, r) => boxes_empty(*l) && boxes_empty(*r),
        LfaeV::Id(_) => true,
        LfaeV::Fun(_, b) => boxes_empty(*b),
        LfaeV::App(f, a) => boxes_empty(*f) && boxes_empty(*a),
        LfaeV::NumV(_) => true,
        LfaeV::ClosureV(_, b, d) => boxes_empty(*b) && env_boxes_empty(*d),
        LfaeV::ExprV(e, d, bx) => *bx is Nil && boxes_empty(*e) && env_boxes_empty(*d),
        LfaeV::Nil => true,
    }
}

/// Every thunk in the bindings has an empty box.
pub open spec fn env_boxes_empty(ds: DefrdV) -> bool
    decreases ds,
{
    match ds {
        DefrdV::MtSub => true,
        DefrdV::ASub(_, v, rest) => boxes_empty(*v) && env_boxes_empty(*rest),
    }
}

proof fn lemma_lookup_boxes_empty(x: Seq<char>, ds: DefrdV)
    requires
        env_boxes_empty(ds),
    ensures
        boxes_empty(spec_lookup(x, ds)),
    decreases ds,
{
    match ds {
        DefrdV::MtSub => {},
        DefrdV::ASub(i, v, rest) => {
            if i != x {
                lemma_lookup_boxes_empty(x, *rest);
            } else {
                assert(boxes_empty(*v));
                match *v {
                    LfaeV::ClosureV(p, b, _) => {
                        assert(boxes_empty(*b));
                    },
                    _ => {},
                }
            }
        },
    }
}

/// Evaluation keeps all thunk boxes empty.
pub proof fn law_interp_boxes_empty(e: LfaeV, ds: DefrdV, fuel: nat)
    requires
        boxes_empty(e),
        env_boxes_empty(ds),
    ensures
        spec_interp(e, ds, fuel) matches Some(v) ==> boxes_empty(v),
    decreases fuel, 2nat,
{
    if fuel > 0 {
        let g = (fuel - 1) as nat;
        match e {
            LfaeV::Add(l, r) => {
                law_interp_boxes_empty(*l, ds, g);
                law_interp_boxes_empty(*r, ds, g);
                if spec_interp(*l, ds, g) is Some && spec_interp(*r, ds, g) is Some {
                    law_arith_boxes_empty(
                        spec_interp(*l, ds, g)->0,
                        spec_interp(*r, ds, g)->0,
                        g,
                        true,
                    );
                }
            },
            LfaeV::Sub(l, r) => {
                law_interp_boxes_empty(*l, ds, g);
                law_interp_boxes_empty(*r, ds, g);
                if spec_interp(*l, ds, g) is Some && spec_interp(*r, ds, g) is Some {
                    law_arith_boxes_empty(
                        spec_interp(*l, ds, g)->0,
                        spec_interp(*r, ds, g)->0,
                        g,
                        false,
                    );
                }
            },
            LfaeV::Id(x) => {
                lemma_lookup_boxes_empty(x, ds);
            },
            LfaeV::App(f, a) => {
                law_interp_boxes_empty(*f, ds, g);
                if spec_interp(*f, ds, g) is Some {
                    let fv0 = spec_interp(*f, ds, g)->0;
                    law_strict_boxes_empty(fv0, g);
                    if spec_strict(fv0, g) is Some {
                        let fv = spec_strict(fv0, g)->0;
                        assert(boxes_empty(*a));
                        let thunk = LfaeV::ExprV(Box::new(*a), Box::new(ds), Box::new(LfaeV::Nil));
                        assert(boxes_empty(thunk));
                        match fv {
                            LfaeV::ClosureV(p, b, d) => {
                                assert(boxes_empty(*b) && env_boxes_empty(*d));
                                assert(callee_env(fv, *a, ds) == DefrdV::ASub(p, Box::new(thunk), d));
                            },
                            _ => {
                                assert(env_boxes_empty(DefrdV::MtSub));
                                assert(callee_env(fv, *a, ds) == DefrdV::ASub(
                                    Seq::empty(),
                                    Box::new(thunk),
                                    Box::new(DefrdV::MtSub),
                                ));
                            },
                        }
                        assert(env_boxes_empty(callee_env(fv, *a, ds)));
                        assert(boxes_empty(callee_body(fv)));
                        law_interp_boxes_empty(callee_body(fv), callee_env(fv, *a, ds), g);
                    }
                }
            },
            _ => {},
        }
    }
}

/// Forcing a value whose thunk boxes are all empty never gives back a thunk,
/// and keeps the boxes empty.
pub proof fn law_strict_boxes_empty(v: LfaeV, fuel: nat)
    requires
        boxes_empty(v),
    ensures
        spec_strict(v, fuel) matches Some(r) ==> boxes_empty(r) && !(r is ExprV),
    decreases fuel, 0nat,
{
    if fuel > 0 {
        let g = (fuel - 1) as nat;
        match v {
            LfaeV::ExprV(e, ds, bx) => {
                law_interp_boxes_empty(*e, *ds, g);
                if spec_interp(*e, *ds, g) is Some {
                    law_strict_boxes_empty(spec_interp(*e, *ds, g)->0, g);
                }
            },
            _ => {},
        }
    }
}

/// Adding or subtracting keeps the boxes empty.
pub proof fn law_arith_boxes_empty(l: LfaeV, r: LfaeV, fuel: nat, plus: bool)
    requires
        boxes_empty(l),
        boxes_empty(r),
    ensures
        spec_arith(l, r, fuel, plus) matches Some(v) ==> boxes_empty(v),
    decreases fuel, 1nat,
{
    law_strict_boxes_empty(l, fuel);
    law_strict_boxes_empty(r, fuel);
}

/// Forcing a value whose thunk boxes are empty gives a value that is no
/// thunk, and forcing that again gives it back.
pub proof fn law_strict_forces(v: LfaeV)
    requires
        boxes_empty(v),
        spec_strict(v, step_limit()) is Some,
    ensures
        !(spec_strict(v, step_limit())->0 is ExprV),
        spec_strict(spec_strict(v, step_limit())->0, step_limit()) == spec_strict(
            v,
            step_limit(),
        ),
{
    law_strict_boxes_empty(v, step_limit());
}

/// A parsed program holds no thunks at all, so its evaluation starts (and,
/// by `law_interp_boxes_empty`, stays) with every box empty.
pub proof fn law_parse_boxes_empty(s: Seq<char>)
    ensures
        spec_parse(s) matches Some(e) ==> boxes_empty(e),
    decreases s.len(),
{
    if let Some(found) = lfae_scan(s, start_index()) {
        let ind = substring_index(found);
        if parts_sliceable(s, found) {
            let lhs = text_slice(s, ind.lhs_start as int, ind.lhs_end + 1);
            let rhs = text_slice(s, ind.rhs_start as int, ind.rhs_end + 1);
            let id_expr = text_slice(s, ind.id_expr_start as int, ind.id_expr_end + 1);
            if lhs.len() < s.len() {
                law_parse_boxes_empty(lhs);
            }
            if rhs.len() < s.len() {
                law_parse_boxes_empty(rhs);
            }
            if id_expr.len() < s.len() {
                law_parse_boxes_empty(id_expr);
            }
            let id = text_slice(s, ind.id as int, ind.id + 1);
            if rhs.len() < s.len() {
                if let Some(b) = spec_parse(rhs) {
                    assert(boxes_empty(LfaeV::Fun(id, Box::new(b))));
                }
            }
        }
    }
}

} // verus!
