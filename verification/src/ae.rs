//! Arithmetic expressions: numbers, `{+ l r}` and `{- l r}`.
//!
//! The parser locates the two operands of the outermost braces by one scan
//! over the characters (`subst_index`), cuts them out (`substring`) and
//! parses them in turn.
use crate::num::{Num, NumV};
use crate::text::{
    bytes_of, can_slice, law_ascii_slice, lemma_bytes_len, slice_text, text_slice, try_slice_text,
};
use vstd::prelude::*;
use vstd::std_specs::iter::IteratorSpec;
use vstd::string::StrSliceExecFns;
use vstd::string::StringSliceAdditionalSpecFns;
use vstd::utf8::*;

verus! {

broadcast use vstd::utf8::group_utf8_lib;

/// An arithmetic expression; a number holds its literal as written.
#[allow(non_camel_case_types)]
#[derive(Debug)]
pub enum AE {
    num(String),
    Add(Box<AE>, Box<AE>),
    Sub(Box<AE>, Box<AE>),
}

/// The model of an [`AE`].
pub enum AeV {
    Num(Seq<char>),
    Add(Box<AeV>, Box<AeV>),
    Sub(Box<AeV>, Box<AeV>),
}

/// The model of an expression.
pub open spec fn ae_view(e: AE) -> AeV
    decreases e,
{
    match e {
        AE::num(s) => AeV::Num(s@),
        AE::Add(l, r) => AeV::Add(Box::new(ae_view(*l)), Box::new(ae_view(*r))),
        AE::Sub(l, r) => AeV::Sub(Box::new(ae_view(*l)), Box::new(ae_view(*r))),
    }
}

impl View for AE {
    type V = AeV;

    open spec fn view(&self) -> AeV {
        ae_view(*self)
    }
}

/// Where the operands of an expression start and end (character positions,
/// used as byte positions when cutting), and its operator (`' '` for none).
#[allow(non_camel_case_types)]
#[derive(Debug, Clone, Copy)]
pub struct s_index {
    pub lhs_start: usize,
    pub lhs_end: usize,
    pub rhs_start: usize,
    pub rhs_end: usize,
    pub oper: char,
}

/// The positions the parser starts a scan from.
pub open spec fn start_index() -> s_index {
    s_index { lhs_start: 0, lhs_end: 0, rhs_start: 0, rhs_end: 0, oper: ' ' }
}

/// The state of a scan between two characters: the positions found so far,
/// the number of open braces, and whether the left operand is still being
/// read (0: not begun, 1: in a number, 2: done).
pub struct AeScan {
    pub ind: s_index,
    pub depth: nat,
    pub lhs_write: int,
}

/// A character that continues a number literal.
pub open spec fn is_num_char(c: char) -> bool {
    ('0' <= c && c <= '9') || c == '.'
}

/// The byte before position `k` is a minus sign.
pub open spec fn minus_before(s: Seq<char>, k: int) -> bool {
    k > 0 && bytes_of(s)[k - 1] == 45u8
}

/// One step of the scan, at the character in position `k`; `None` where the
/// scan would move a start position below zero.
pub open spec fn ae_step(s: Seq<char>, k: int, st: AeScan) -> Option<AeScan> {
    let c = s[k];
    let ind = st.ind;
    let d = st.depth;
    let lw = st.lhs_write;
    let ku = k as usize;
    if c == '{' {
        let ind2 = if d == 1 {
            if ind.lhs_start == 0 {
                s_index { lhs_start: ku, ..ind }
            } else {
                s_index { rhs_start: ku, ..ind }
            }
        } else {
            ind
        };
        Some(AeScan { ind: ind2, depth: d + 1, lhs_write: lw })
    } else if c == '}' {
        let d2: nat = if d > 0 { (d - 1) as nat } else { 0 };
        if d2 == 1 {
            if ind.lhs_end == 0 {
                Some(AeScan { ind: s_index { lhs_end: ku, ..ind }, depth: d2, lhs_write: 2 })
            } else {
                Some(AeScan { ind: s_index { rhs_end: ku, ..ind }, depth: d2, lhs_write: lw })
            }
        } else {
            Some(AeScan { ind, depth: d2, lhs_write: lw })
        }
    } else if d == 1 && ind.oper == ' ' && (c == '+' || c == '-') {
        Some(AeScan { ind: s_index { oper: c, ..ind }, depth: d, lhs_write: lw })
    } else if is_num_char(c) {
        if d <= 1 {
            if lw != 2 {
                let start = if ind.lhs_start == 0 && lw == 0 { ku } else { ind.lhs_start };
                if minus_before(s, k) && start == 0 {
                    None
                } else {
                    let start2 = if minus_before(s, k) { (start - 1) as usize } else { start };
                    Some(AeScan {
                        ind: s_index { lhs_start: start2, lhs_end: ku, ..ind },
                        depth: d,
                        lhs_write: 1,
                    })
                }
            } else {
                let start = if ind.rhs_start == 0 { ku } else { ind.rhs_start };
                if minus_before(s, k) && start == 0 {
                    None
                } else {
                    let start2 = if minus_before(s, k) { (start - 1) as usize } else { start };
                    Some(AeScan {
                        ind: s_index { rhs_start: start2, rhs_end: ku, ..ind },
                        depth: d,
                        lhs_write: lw,
                    })
                }
            }
        } else {
            Some(st)
        }
    } else if c == ' ' && lw == 1 {
        Some(AeScan { lhs_write: 2, ..st })
    } else {
        Some(st)
    }
}

/// The scan over the first `n` characters of `s`.
pub open spec fn ae_scan_upto(s: Seq<char>, st0: AeScan, n: nat) -> Option<AeScan>
    decreases n,
{
    if n == 0 {
        Some(st0)
    } else {
        match ae_scan_upto(s, st0, (n - 1) as nat) {
            Some(st) => ae_step(s, n - 1, st),
            None => None,
        }
    }
}

/// Once the scan has panicked it stays so.
proof fn lemma_ae_scan_stuck(s: Seq<char>, st0: AeScan, m: nat, n: nat)
    requires
        m <= n,
        ae_scan_upto(s, st0, m) is None,
    ensures
        ae_scan_upto(s, st0, n) is None,
    decreases n - m,
{
    if m < n {
        lemma_ae_scan_stuck(s, st0, m, (n - 1) as nat);
    }
}

/// The positions that a whole scan of `s` leaves, starting from `ind`;
/// `None` where the scan panics.
pub open spec fn ae_scan(s: Seq<char>, ind: s_index) -> Option<s_index> {
    match ae_scan_upto(s, AeScan { ind, depth: 0, lhs_write: 0 }, s.len()) {
        Some(st) => Some(st.ind),
        None => None,
    }
}

/// Scans `s` and records in `ind_instance` where the operands of its
/// outermost braces are and which operator joins them. Returns `false`,
/// having stopped, exactly where the scan would move a start position below
/// zero.
pub fn try_subst_index(s: &String, ind_instance: &mut s_index) -> (ok: bool)
    ensures
        ok == ae_scan(s@, *old(ind_instance)) is Some,
        ok ==> *final(ind_instance) == ae_scan(s@, *old(ind_instance))->0,
{
    let st = s.as_str();
    let b = st.as_bytes();
    proof {
        lemma_bytes_len(s@);
    }
    let ghost st0 = AeScan { ind: *ind_instance, depth: 0, lhs_write: 0 };
    let mut it = st.chars();
    let mut count: usize = 0;
    let mut depth: usize = 0;
    let mut lhs_write: u8 = 0;
    loop
        invariant
            b@ == bytes_of(s@),
            s@.len() <= b@.len(),
            count <= s@.len(),
            depth <= count,
            it.remaining() == s@.skip(count as int),
            st0.ind == *old(ind_instance),
            st0.depth == 0,
            st0.lhs_write == 0,
            ae_scan_upto(s@, st0, count as nat) == Some(
                AeScan { ind: *ind_instance, depth: depth as nat, lhs_write: lhs_write as int },
            ),
        ensures
            count == s@.len(),
            ae_scan_upto(s@, st0, count as nat) == Some(
                AeScan { ind: *ind_instance, depth: depth as nat, lhs_write: lhs_write as int },
            ),
        decreases s@.len() - count,
    {
        let next = it.next();
        let c = match next {
            None => {
                break ;
            },
            Some(c) => c,
        };
        assert(c == s@[count as int]);
        let ghost pre = AeScan { ind: *ind_instance, depth: depth as nat, lhs_write: lhs_write as int };
        let minus = count > 0 && b[count - 1] == 45u8;
        assert(minus == minus_before(s@, count as int));
        if c == '{' {
            if depth == 1 {
                if ind_instance.lhs_start == 0 {
                    ind_instance.lhs_start = count;
                } else {
                    ind_instance.rhs_start = count;
                }
            }
            depth = depth + 1;
        } else if c == '}' {
            if depth > 0 {
                depth = depth - 1;
            }
            if depth == 1 {
                if ind_instance.lhs_end == 0 {
                    ind_instance.lhs_end = count;
                    lhs_write = 2;
                } else {
                    ind_instance.rhs_end = count;
                }
            }
        } else if depth == 1 && ind_instance.oper == ' ' && (c == '+' || c == '-') {
            ind_instance.oper = c;
        } else if ('0' <= c && c <= '9') || c == '.' {
            if depth <= 1 {
                if lhs_write != 2 {
                    if ind_instance.lhs_start == 0 && lhs_write == 0 {
                        ind_instance.lhs_start = count;
                    }
                    ind_instance.lhs_end = count;
                    if minus {
                        if ind_instance.lhs_start == 0 {
                            proof {
                                lemma_ae_scan_stuck(s@, st0, (count + 1) as nat, s@.len());
                            }
                            return false;
                        }
                        ind_instance.lhs_start = ind_instance.lhs_start - 1;
                    }
                    lhs_write = 1;
                } else {
                    if ind_instance.rhs_start == 0 {
                        ind_instance.rhs_start = count;
                    }
                    ind_instance.rhs_end = count;
                    if minus {
                        if ind_instance.rhs_start == 0 {
                            proof {
                                lemma_ae_scan_stuck(s@, st0, (count + 1) as nat, s@.len());
                            }
                            return false;
                        }
                        ind_instance.rhs_start = ind_instance.rhs_start - 1;
                    }
                }
            }
        } else if c == ' ' && lhs_write == 1 {
            lhs_write = 2;
        }
        assert(ae_step(s@, count as int, pre) == Some(
            AeScan { ind: *ind_instance, depth: depth as nat, lhs_write: lhs_write as int },
        ));
        assert(s@.skip(count as int).drop_first() =~= s@.skip(count + 1));
        count = count + 1;
    }
    true
}

/// Scans `s` and records in `ind_instance` where the operands of its
/// outermost braces are and which operator joins them.
pub fn subst_index(s: &String, ind_instance: &mut s_index)
    requires
        ae_scan(s@, *old(ind_instance)) is Some,
    ensures
        *final(ind_instance) == ae_scan(s@, *old(ind_instance))->0,
{
    let _ = try_subst_index(s, ind_instance);
}

/// The positions after `substring`: without a right operand there is no
/// operator.
pub open spec fn substring_index(ind: s_index) -> s_index {
    if ind.rhs_start == 0 {
        s_index { oper: ' ', ..ind }
    } else {
        ind
    }
}

/// Both operands can be cut out of `s`.
pub open spec fn operands_sliceable(s: Seq<char>, ind: s_index) -> bool {
    &&& can_slice(s, ind.lhs_start as int, ind.lhs_end + 1)
    &&& can_slice(s, ind.rhs_start as int, ind.rhs_end + 1)
}

/// Cuts both operands out of `s` (each up to and including its end
/// position), and clears the operator when there is no right operand.
pub fn substring(ind_instance: &mut s_index, s: &String) -> (res: (String, String))
    requires
        operands_sliceable(s@, *old(ind_instance)),
    ensures
        *final(ind_instance) == substring_index(*old(ind_instance)),
        res.0@ == text_slice(s@, old(ind_instance).lhs_start as int, old(ind_instance).lhs_end + 1),
        res.1@ == text_slice(s@, old(ind_instance).rhs_start as int, old(ind_instance).rhs_end + 1),
{
    if ind_instance.rhs_start == 0 {
        ind_instance.oper = ' ';
    }
    let st = s.as_str();
    let _n = st.as_bytes().len();
    let subs_lhs = slice_text(st, ind_instance.lhs_start, ind_instance.lhs_end + 1);
    let subs_rhs = slice_text(st, ind_instance.rhs_start, ind_instance.rhs_end + 1);
    (subs_lhs, subs_rhs)
}

/// Whether `substring` can cut both operands out of `s`.
fn operands_fit(ind: &s_index, s: &String) -> (r: bool)
    ensures
        r == operands_sliceable(s@, *ind),
{
    let st = s.as_str();
    let n = st.as_bytes().len();
    if ind.lhs_end >= n || ind.rhs_end >= n {
        return false;
    }
    try_slice_text(st, ind.lhs_start, ind.lhs_end + 1).is_some() && try_slice_text(
        st,
        ind.rhs_start,
        ind.rhs_end + 1,
    ).is_some()
}

/// The expression that `s` parses to; `None` where parsing panics (a scan
/// that fails, a part that cannot be cut out, a form with no case) or never
/// ends: an operand with at least as many characters as the text is the text
/// itself (`text::law_long_part_is_whole`), parsed again and again. Number
/// literals are kept as written; whether they read as floats is not decided
/// here.
pub open spec fn spec_parse(s: Seq<char>) -> Option<AeV>
    decreases s.len(),
{
    match ae_scan(s, start_index()) {
        None => None,
        Some(found) => {
            let ind = substring_index(found);
            if !operands_sliceable(s, found) {
                None
            } else {
                let lhs = text_slice(s, ind.lhs_start as int, ind.lhs_end + 1);
                let rhs = text_slice(s, ind.rhs_start as int, ind.rhs_end + 1);
                if ind.oper == ' ' {
                    Some(AeV::Num(lhs))
                } else if (ind.oper == '+' || ind.oper == '-') && lhs.len() < s.len() && rhs.len()
                    < s.len() {
                    match (spec_parse(lhs), spec_parse(rhs)) {
                        (Some(l), Some(r)) => if ind.oper == '+' {
                            Some(AeV::Add(Box::new(l), Box::new(r)))
                        } else {
                            Some(AeV::Sub(Box::new(l), Box::new(r)))
                        },
                        _ => None,
                    }
                } else {
                    None
                }
            }
        },
    }
}

/// Parses `s`, or returns `None` exactly where parsing it panics or never
/// ends.
pub fn parse_checked(s: String) -> (res: Option<AE>)
    ensures
        res is Some <==> spec_parse(s@) is Some,
        res matches Some(e) ==> e@ == spec_parse(s@)->0,
    decreases s@.len(),
{
    let mut ind_instance = s_index { lhs_start: 0, lhs_end: 0, rhs_start: 0, rhs_end: 0, oper: ' ' };
    if !try_subst_index(&s, &mut ind_instance) {
        return None;
    }
    if !operands_fit(&ind_instance, &s) {
        return None;
    }
    let (subs_lhs, subs_rhs) = substring(&mut ind_instance, &s);
    if ind_instance.oper == ' ' {
        return Some(AE::num(subs_lhs));
    }
    if ind_instance.oper != '+' && ind_instance.oper != '-' {
        return None;
    }
    let n = s.as_str().unicode_len();
    if subs_lhs.as_str().unicode_len() >= n || subs_rhs.as_str().unicode_len() >= n {
        return None;
    }
    let l = match parse_checked(subs_lhs) {
        Some(l) => l,
        None => {
            return None;
        },
    };
    let r = match parse_checked(subs_rhs) {
        Some(r) => r,
        None => {
            return None;
        },
    };
    if ind_instance.oper == '+' {
        Some(AE::Add(Box::new(l), Box::new(r)))
    } else {
        Some(AE::Sub(Box::new(l), Box::new(r)))
    }
}

/// Parses `s`: a number, or `{+ l r}` / `{- l r}` with operands parsed in
/// turn.
pub fn parse(s: String) -> (res: AE)
    requires
        spec_parse(s@) is Some,
    ensures
        res@ == spec_parse(s@)->0,
{
    match parse_checked(s) {
        Some(e) => e,
        None => {
            proof {
                assert(false);
            }
            AE::num(String::new())
        },
    }
}

/// The value of an expression.
pub open spec fn spec_interp(e: AeV) -> NumV
    decreases e,
{
    match e {
        AeV::Num(n) => NumV::Lit(n),
        AeV::Add(l, r) => NumV::Plus(Box::new(spec_interp(*l)), Box::new(spec_interp(*r))),
        AeV::Sub(l, r) => NumV::Minus(Box::new(spec_interp(*l)), Box::new(spec_interp(*r))),
    }
}

/// Evaluates an expression: a sum for `+`, a difference for `-`.
pub fn interp(ae: AE) -> (res: Num)
    ensures
        res@ == spec_interp(ae@),
    decreases ae,
{
    match ae {
        AE::num(n) => Num::Lit(n),
        AE::Add(l, r) => Num::Plus(Box::new(interp(*l)), Box::new(interp(*r))),
        AE::Sub(l, r) => Num::Minus(Box::new(interp(*l)), Box::new(interp(*r))),
    }
}

/// Evaluation follows the structure of the expression whatever the shape of
/// the operands: a number gives its literal, `{+ l r}` the sum of the value of
/// `l` and the value of `r`, `{- l r}` the value of `l` minus the value of `r`.
pub proof fn law_interp_structure(n: Seq<char>, l: AeV, r: AeV)
    ensures
        spec_interp(AeV::Num(n)) == NumV::Lit(n),
        spec_interp(AeV::Add(Box::new(l), Box::new(r))) == NumV::Plus(
            Box::new(spec_interp(l)),
            Box::new(spec_interp(r)),
        ),
        spec_interp(AeV::Sub(Box::new(l), Box::new(r))) == NumV::Minus(
            Box::new(spec_interp(l)),
            Box::new(spec_interp(r)),
        ),
{
}

/// The model of an expression is built node by node: a number keeps its
/// text, and each operand of `{+ l r}` or `{- l r}` stays in its place.
pub proof fn law_ae_view_structure(n: String, l: AE, r: AE)
    ensures
        ae_view(AE::num(n)) == AeV::Num(n@),
        ae_view(AE::Add(Box::new(l), Box::new(r))) == AeV::Add(
            Box::new(ae_view(l)),
            Box::new(ae_view(r)),
        ),
        ae_view(AE::Sub(Box::new(l), Box::new(r))) == AeV::Sub(
            Box::new(ae_view(l)),
            Box::new(ae_view(r)),
        ),
{
}

/// The forms a scan can find, starting from no form: a number, `+` or `-`.
pub open spec fn is_ae_form(c: char) -> bool {
    c == ' ' || c == '+' || c == '-'
}

proof fn lemma_ae_scan_form(s: Seq<char>, st0: AeScan, n: nat)
    requires
        is_ae_form(st0.ind.oper),
    ensures
        ae_scan_upto(s, st0, n) matches Some(st) ==> is_ae_form(st.ind.oper),
    decreases n,
{
    if n > 0 {
        lemma_ae_scan_form(s, st0, (n - 1) as nat);
    }
}

/// A scan from the parser's start finds one of the forms the parser handles,
/// so parsing never reaches its last, failing, case.
pub proof fn law_ae_scan_form(s: Seq<char>)
    ensures
        ae_scan(s, start_index()) matches Some(ind) ==> is_ae_form(substring_index(ind).oper),
{
    lemma_ae_scan_form(s, AeScan { ind: start_index(), depth: 0, lhs_write: 0 }, s.len());
}

/// A number literal as the parser reads one: an optional minus sign, then
/// one or more digits or dots.
pub open spec fn is_literal(t: Seq<char>) -> bool {
    &&& t.len() >= 1
    &&& t[0] == '-' ==> t.len() >= 2
    &&& t[0] == '-' || is_num_char(t[0])
    &&& forall|m: int| 0 < m < t.len() ==> is_num_char(#[trigger] t[m])
}

/// An expression whose literals are all number literals.
pub open spec fn ae_wf(e: AeV) -> bool
    decreases e,
{
    match e {
        AeV::Num(n) => is_literal(n),
        AeV::Add(l, r) => ae_wf(*l) && ae_wf(*r),
        AeV::Sub(l, r) => ae_wf(*l) && ae_wf(*r),
    }
}

/// The text of an expression: its literal, or `{+ l r}` / `{- l r}` with
/// single spaces.
pub open spec fn ae_text(e: AeV) -> Seq<char>
    decreases e,
{
    match e {
        AeV::Num(n) => n,
        AeV::Add(l, r) => brace_text('+', ae_text(*l), ae_text(*r)),
        AeV::Sub(l, r) => brace_text('-', ae_text(*l), ae_text(*r)),
    }
}

/// `{op l r}` with single spaces.
pub open spec fn brace_text(op: char, l: Seq<char>, r: Seq<char>) -> Seq<char> {
    seq!['{', op, ' '] + l + seq![' '] + r + seq!['}']
}

/// `t` stands in `s` from position `i` on.
pub open spec fn placed(s: Seq<char>, i: int, t: Seq<char>) -> bool {
    0 <= i && i + t.len() <= s.len() && s.subrange(i, i + t.len()) == t
}

/// The scan over positions `i` to `j` of `s`, from the state `st`.
pub open spec fn ae_run(s: Seq<char>, st: AeScan, i: int, j: int) -> Option<AeScan>
    decreases j - i,
{
    if i >= j {
        Some(st)
    } else {
        match ae_step(s, i, st) {
            Some(st2) => ae_run(s, st2, i + 1, j),
            None => None,
        }
    }
}

proof fn lemma_ae_run_split(s: Seq<char>, st: AeScan, i: int, j: int, k: int)
    requires
        i <= j <= k,
    ensures
        ae_run(s, st, i, k) == match ae_run(s, st, i, j) {
            Some(m) => ae_run(s, m, j, k),
            None => None,
        },
    decreases j - i,
{
    if i < j {
        if let Some(st2) = ae_step(s, i, st) {
            lemma_ae_run_split(s, st2, i + 1, j, k);
        }
    }
}

proof fn lemma_ae_upto_run(s: Seq<char>, st: AeScan, n: nat)
    ensures
        ae_scan_upto(s, st, n) == ae_run(s, st, 0, n as int),
    decreases n,
{
    if n > 0 {
        lemma_ae_upto_run(s, st, (n - 1) as nat);
        lemma_ae_run_split(s, st, 0, n - 1, n as int);
        if let Some(m) = ae_run(s, st, 0, n - 1) {
            assert(ae_run(s, m, n - 1, n as int) == match ae_step(s, n - 1, m) {
                Some(st2) => ae_run(s, st2, n as int, n as int),
                None => None,
            });
        }
    }
}

proof fn lemma_ae_run_one(s: Seq<char>, st: AeScan, i: int)
    ensures
        ae_run(s, st, i, i + 1) == ae_step(s, i, st),
{
    if let Some(st2) = ae_step(s, i, st) {
        assert(ae_run(s, st2, i + 1, i + 1) == Some(st2));
    }
}

/// Steps that leave the state alone leave it alone over a range.
proof fn lemma_ae_run_still(s: Seq<char>, st: AeScan, i: int, j: int)
    requires
        i <= j,
        forall|k: int| i <= k < j ==> #[trigger] ae_step(s, k, st) == Some(st),
    ensures
        ae_run(s, st, i, j) == Some(st),
    decreases j - i,
{
    if i < j {
        lemma_ae_run_still(s, st, i + 1, j);
    }
}

/// In an ASCII text, the byte before a position is a minus sign exactly
/// when the character is.
proof fn lemma_ae_minus_ascii(s: Seq<char>, k: int)
    requires
        is_ascii_chars(s),
        0 < k <= s.len(),
    ensures
        minus_before(s, k) <==> s[k - 1] == '-',
{
    is_ascii_chars_encode_utf8(s);
    is_ascii_chars_nat_bound(s);
    assert(s[k - 1] as u8 == bytes_of(s)[k - 1]);
}

proof fn lemma_ae_text(e: AeV)
    requires
        ae_wf(e),
    ensures
        is_ascii_chars(ae_text(e)),
        ae_text(e).len() >= 1,
        e is Num ==> forall|m: int|
            0 <= m < ae_text(e).len() ==> #[trigger] ae_text(e)[m] == '-' || is_num_char(
                ae_text(e)[m],
            ),
        !(e is Num) ==> ae_text(e)[0] == '{' && ae_text(e)[ae_text(e).len() - 1] == '}',
    decreases e,
{
    match e {
        AeV::Num(n) => {
            assert forall|m: int| 0 <= m < n.len() implies '\0' <= #[trigger] n[m] <= '\u{7f}' by {
                if m > 0 {
                    assert(is_num_char(n[m]));
                }
            }
        },
        AeV::Add(l, r) => {
            lemma_ae_text(*l);
            lemma_ae_text(*r);
            let t = ae_text(e);
            let tl = ae_text(*l);
            let tr = ae_text(*r);
            assert forall|m: int| 0 <= m < t.len() implies '\0' <= #[trigger] t[m] <= '\u{7f}' by {
                if 3 <= m < 3 + tl.len() {
                    assert(t[m] == tl[m - 3]);
                } else if 4 + tl.len() <= m < 4 + tl.len() + tr.len() {
                    assert(t[m] == tr[m - 4 - tl.len()]);
                }
            }
        },
        AeV::Sub(l, r) => {
            lemma_ae_text(*l);
            lemma_ae_text(*r);
            let t = ae_text(e);
            let tl = ae_text(*l);
            let tr = ae_text(*r);
            assert forall|m: int| 0 <= m < t.len() implies '\0' <= #[trigger] t[m] <= '\u{7f}' by {
                if 3 <= m < 3 + tl.len() {
                    assert(t[m] == tl[m - 3]);
                } else if 4 + tl.len() <= m < 4 + tl.len() + tr.len() {
                    assert(t[m] == tr[m - 4 - tl.len()]);
                }
            }
        },
    }
}

proof fn lemma_placed_part(s: Seq<char>, i: int, t: Seq<char>, a: int, p: Seq<char>)
    requires
        placed(s, i, t),
        0 <= a,
        a + p.len() <= t.len(),
        t.subrange(a, a + p.len()) == p,
    ensures
        placed(s, i + a, p),
{
    assert(s.subrange(i + a, i + a + p.len()) =~= p) by {
        assert forall|m: int| 0 <= m < p.len() implies s.subrange(i + a, i + a + p.len())[m]
            == p[m] by {
            assert(s[i + a + m] == s.subrange(i, i + t.len())[a + m]);
            assert(p[m] == t.subrange(a, a + p.len())[m]);
        }
    }
}

/// The parts of `{op l r}`, where they stand.
proof fn lemma_brace_parts(s: Seq<char>, i: int, op: char, l: Seq<char>, r: Seq<char>)
    requires
        placed(s, i, brace_text(op, l, r)),
    ensures
        s[i] == '{',
        s[i + 1] == op,
        s[i + 2] == ' ',
        placed(s, i + 3, l),
        s[i + 3 + l.len()] == ' ',
        placed(s, i + 4 + l.len(), r),
        s[i + 4 + l.len() + r.len()] == '}',
        brace_text(op, l, r).len() == l.len() + r.len() + 5,
{
    let t = brace_text(op, l, r);
    let a = l.len() as int;
    let b = r.len() as int;
    assert(s[i] == t[0]);
    assert(s[i + 1] == t[1]);
    assert(s[i + 2] == t[2]);
    assert(s[i + 3 + a] == t[3 + a]);
    assert(s[i + 4 + a + b] == t[4 + a + b]);
    assert(t.subrange(3, 3 + a) =~= l);
    assert(t.subrange(4 + a, 4 + a + b) =~= r);
    lemma_placed_part(s, i, t, 3, l);
    lemma_placed_part(s, i, t, 4 + a, r);
}

/// Inside an operand's braces (two or more deep), while no number of the
/// left operand is being read, a well-formed expression changes nothing but
/// the depth, which comes back.
proof fn lemma_ae_inner(s: Seq<char>, i: int, e: AeV, st: AeScan)
    requires
        ae_wf(e),
        placed(s, i, ae_text(e)),
        st.depth >= 2,
        st.lhs_write != 1,
    ensures
        ae_run(s, st, i, i + ae_text(e).len()) == Some(st),
    decreases e,
{
    lemma_ae_text(e);
    let t = ae_text(e);
    let n = t.len() as int;
    match e {
        AeV::Num(_) => {
            assert forall|k: int| i <= k < i + n implies #[trigger] ae_step(s, k, st) == Some(st) by {
                assert(s[k] == s.subrange(i, i + n)[k - i]);
            }
            lemma_ae_run_still(s, st, i, i + n);
        },
        AeV::Add(l, r) | AeV::Sub(l, r) => {
            let op = if e is Add { '+' } else { '-' };
            let tl = ae_text(*l);
            let tr = ae_text(*r);
            assert(t == brace_text(op, tl, tr));
            lemma_brace_parts(s, i, op, tl, tr);
            let st1 = AeScan { depth: st.depth + 1, ..st };
            let p = i + 3 + tl.len();
            let q = p + 1 + tr.len();
            // '{'
            lemma_ae_run_one(s, st, i);
            assert(ae_step(s, i, st) == Some(st1));
            // op and space
            assert forall|k: int| i + 1 <= k < i + 3 implies #[trigger] ae_step(s, k, st1) == Some(
                st1,
            ) by {}
            lemma_ae_run_still(s, st1, i + 1, i + 3);
            lemma_ae_inner(s, i + 3, *l, st1);
            lemma_ae_run_one(s, st1, p);
            assert(ae_step(s, p, st1) == Some(st1));
            lemma_ae_inner(s, p + 1, *r, st1);
            lemma_ae_run_one(s, st1, q);
            assert(ae_step(s, q, st1) == Some(st));
            lemma_ae_run_split(s, st, i, i + 1, i + n);
            lemma_ae_run_split(s, st1, i + 1, i + 3, i + n);
            lemma_ae_run_split(s, st1, i + 3, p, i + n);
            lemma_ae_run_split(s, st1, p, p + 1, i + n);
            lemma_ae_run_split(s, st1, p + 1, q, i + n);
        },
    }
}

/// The state after the digits of a literal that starts at `i` and whose last
/// digit so far is at `last`: recorded as the left operand (`left`) or the
/// right one.
pub open spec fn literal_state(st: AeScan, i: int, last: int, left: bool) -> AeScan {
    if left {
        AeScan {
            ind: s_index { lhs_start: i as usize, lhs_end: last as usize, ..st.ind },
            depth: st.depth,
            lhs_write: 1,
        }
    } else {
        AeScan { ind: s_index { rhs_start: i as usize, rhs_end: last as usize, ..st.ind }, ..st }
    }
}

proof fn lemma_ae_digits(s: Seq<char>, i: int, j0: int, n: int, st: AeScan, left: bool)
    requires
        is_ascii_chars(s),
        s.len() < usize::MAX,
        0 <= i,
        1 <= n,
        j0 == i || j0 == i + 1,
        j0 + n <= s.len(),
        j0 == i + 1 ==> s[i] == '-',
        j0 == i && i > 0 ==> s[i - 1] != '-',
        forall|k: int| j0 <= k < j0 + n ==> is_num_char(#[trigger] s[k]),
        st.depth <= 1,
        left ==> st.lhs_write == 0 && st.ind.lhs_start == 0,
        !left ==> st.lhs_write == 2 && st.ind.rhs_start == 0 && i >= 1,
    ensures
        ae_run(s, st, j0, j0 + n) == Some(literal_state(st, i, j0 + n - 1, left)),
    decreases n,
{
    let k = j0 + n - 1;
    assert(is_num_char(s[k]));
    if k > 0 {
        lemma_ae_minus_ascii(s, k);
    }
    if n == 1 {
        lemma_ae_run_one(s, st, j0);
    } else {
        lemma_ae_digits(s, i, j0, n - 1, st, left);
        assert(is_num_char(s[k - 1]));
        lemma_ae_run_split(s, st, j0, k, k + 1);
        lemma_ae_run_one(s, literal_state(st, i, k - 1, left), k);
    }
}

/// A literal read at depth at most one, as the left or the right operand,
/// where no operator is waiting to be read (so a minus sign is a sign).
proof fn lemma_ae_literal(s: Seq<char>, i: int, lit: Seq<char>, st: AeScan, left: bool)
    requires
        is_literal(lit),
        is_ascii_chars(s),
        s.len() < usize::MAX,
        placed(s, i, lit),
        i > 0 ==> s[i - 1] != '-',
        st.depth <= 1,
        st.depth == 1 ==> st.ind.oper != ' ',
        left ==> st.lhs_write == 0 && st.ind.lhs_start == 0,
        !left ==> st.lhs_write == 2 && st.ind.rhs_start == 0 && i >= 1,
    ensures
        ae_run(s, st, i, i + lit.len()) == Some(literal_state(st, i, i + lit.len() - 1, left)),
{
    let n = lit.len() as int;
    assert forall|m: int| 0 <= m < n implies s[i + m] == #[trigger] lit[m] by {
        assert(s[i + m] == s.subrange(i, i + n)[m]);
    }
    if lit[0] == '-' {
        assert(s[i] == '-');
        lemma_ae_run_one(s, st, i);
        assert(ae_step(s, i, st) == Some(st));
        assert forall|k: int| i + 1 <= k < i + 1 + (n - 1) implies is_num_char(#[trigger] s[k]) by {
            assert(s[k] == lit[k - i]);
        }
        lemma_ae_digits(s, i, i + 1, n - 1, st, left);
        lemma_ae_run_split(s, st, i, i + 1, i + n);
    } else {
        assert forall|k: int| i <= k < i + n implies is_num_char(#[trigger] s[k]) by {
            assert(s[k] == lit[k - i]);
        }
        lemma_ae_digits(s, i, i, n, st, left);
    }
}

/// The state after an operand from `i` to `last` at depth one: a literal
/// as `literal_state` says; a bracketed left operand finishes the left
/// operand; a bracketed right operand records its range.
pub open spec fn operand_state(st: AeScan, i: int, last: int, left: bool, is_num: bool) -> AeScan {
    if is_num || !left {
        literal_state(st, i, last, left)
    } else {
        AeScan {
            ind: s_index { lhs_start: i as usize, lhs_end: last as usize, ..st.ind },
            depth: st.depth,
            lhs_write: 2,
        }
    }
}

/// An operand of the outermost braces, after a space, read as the left or
/// the right operand.
proof fn lemma_ae_operand(s: Seq<char>, i: int, e: AeV, st: AeScan, left: bool)
    requires
        ae_wf(e),
        is_ascii_chars(s),
        s.len() < usize::MAX,
        placed(s, i, ae_text(e)),
        i >= 1,
        s[i - 1] == ' ',
        st.depth == 1,
        st.ind.oper != ' ',
        left ==> st.lhs_write == 0 && st.ind.lhs_start == 0 && st.ind.lhs_end == 0,
        !left ==> st.lhs_write == 2 && st.ind.rhs_start == 0 && st.ind.lhs_start != 0
            && st.ind.lhs_end != 0,
    ensures
        ae_run(s, st, i, i + ae_text(e).len()) == Some(
            operand_state(st, i, i + ae_text(e).len() - 1, left, e is Num),
        ),
{
    lemma_ae_text(e);
    let t = ae_text(e);
    let n = t.len() as int;
    match e {
        AeV::Num(lit) => {
            lemma_ae_literal(s, i, lit, st, left);
        },
        AeV::Add(l, r) | AeV::Sub(l, r) => {
            let op = if e is Add { '+' } else { '-' };
            let tl = ae_text(*l);
            let tr = ae_text(*r);
            assert(t == brace_text(op, tl, tr));
            lemma_brace_parts(s, i, op, tl, tr);
            let ind1 = if left {
                s_index { lhs_start: i as usize, ..st.ind }
            } else {
                s_index { rhs_start: i as usize, ..st.ind }
            };
            let st1 = AeScan { ind: ind1, depth: 2, lhs_write: st.lhs_write };
            let p = i + 3 + tl.len();
            let q = p + 1 + tr.len();
            lemma_ae_run_one(s, st, i);
            assert(ae_step(s, i, st) == Some(st1));
            assert forall|k: int| i + 1 <= k < i + 3 implies #[trigger] ae_step(s, k, st1) == Some(
                st1,
            ) by {}
            lemma_ae_run_still(s, st1, i + 1, i + 3);
            lemma_ae_inner(s, i + 3, *l, st1);
            lemma_ae_run_one(s, st1, p);
            assert(ae_step(s, p, st1) == Some(st1));
            lemma_ae_inner(s, p + 1, *r, st1);
            lemma_ae_run_one(s, st1, q);
            assert(ae_step(s, q, st1) == Some(operand_state(st, i, q, left, false)));
            lemma_ae_run_split(s, st, i, i + 1, i + n);
            lemma_ae_run_split(s, st1, i + 1, i + 3, i + n);
            lemma_ae_run_split(s, st1, i + 3, p, i + n);
            lemma_ae_run_split(s, st1, p, p + 1, i + n);
            lemma_ae_run_split(s, st1, p + 1, q, i + n);
        },
    }
}

/// The positions a scan finds in the text of a well-formed expression: the
/// whole literal, or the two operands of `{op l r}` and the operator.
pub open spec fn text_index(e: AeV) -> s_index {
    match e {
        AeV::Num(n) => s_index { lhs_end: (n.len() - 1) as usize, ..start_index() },
        AeV::Add(l, r) => brace_index('+', ae_text(*l).len() as int, ae_text(*r).len() as int),
        AeV::Sub(l, r) => brace_index('-', ae_text(*l).len() as int, ae_text(*r).len() as int),
    }
}

/// The positions in `{op l r}` with operand texts of lengths `a` and `b`.
pub open spec fn brace_index(op: char, a: int, b: int) -> s_index {
    s_index {
        lhs_start: 3,
        lhs_end: (2 + a) as usize,
        rhs_start: (4 + a) as usize,
        rhs_end: (3 + a + b) as usize,
        oper: op,
    }
}

/// `s` is the text `t`, maybe followed by a line break.
pub open spec fn is_line(s: Seq<char>, t: Seq<char>) -> bool {
    ||| s == t
    ||| s == t + seq!['\n']
}

proof fn lemma_ae_scan_text(s: Seq<char>, e: AeV)
    requires
        ae_wf(e),
        is_line(s, ae_text(e)),
        s.len() < usize::MAX,
    ensures
        ae_scan(s, start_index()) == Some(text_index(e)),
{
    lemma_ae_text(e);
    let t = ae_text(e);
    let n = t.len() as int;
    let st0 = AeScan { ind: start_index(), depth: 0, lhs_write: 0 };
    assert(s.subrange(0, n) =~= t);
    assert(placed(s, 0, t));
    assert(is_ascii_chars(s)) by {
        assert forall|m: int| 0 <= m < s.len() implies '\0' <= #[trigger] s[m] <= '\u{7f}' by {
            if m < n {
                assert(s[m] == t[m]);
            }
        }
    }
    lemma_ae_upto_run(s, st0, s.len());
    let fin = match e {
        AeV::Num(lit) => {
            lemma_ae_literal(s, 0, lit, st0, true);
            literal_state(st0, 0, n - 1, true)
        },
        AeV::Add(l, r) | AeV::Sub(l, r) => {
            let op = if e is Add { '+' } else { '-' };
            let tl = ae_text(*l);
            let tr = ae_text(*r);
            assert(t == brace_text(op, tl, tr));
            lemma_brace_parts(s, 0, op, tl, tr);
            let p = 3 + tl.len() as int;
            let q = p + 1 + tr.len() as int;
            let st1 = AeScan { depth: 1, ..st0 };
            let st2 = AeScan { ind: s_index { oper: op, ..st0.ind }, depth: 1, lhs_write: 0 };
            lemma_ae_run_one(s, st0, 0);
            assert(ae_step(s, 0, st0) == Some(st1));
            lemma_ae_run_one(s, st1, 1);
            assert(ae_step(s, 1, st1) == Some(st2));
            lemma_ae_run_one(s, st2, 2);
            assert(ae_step(s, 2, st2) == Some(st2));
            lemma_ae_operand(s, 3, *l, st2, true);
            let st3 = operand_state(st2, 3, p - 1, true, *l is Num);
            let st4 = AeScan { lhs_write: 2, ..st3 };
            lemma_ae_run_one(s, st3, p);
            assert(ae_step(s, p, st3) == Some(st4));
            lemma_ae_operand(s, p + 1, *r, st4, false);
            let st5 = operand_state(st4, p + 1, q - 1, false, *r is Num);
            lemma_ae_run_one(s, st5, q);
            let st6 = AeScan { depth: 0, ..st5 };
            assert(ae_step(s, q, st5) == Some(st6));
            lemma_ae_run_split(s, st0, 0, 1, n);
            lemma_ae_run_split(s, st1, 1, 2, n);
            lemma_ae_run_split(s, st2, 2, 3, n);
            lemma_ae_run_split(s, st2, 3, p, n);
            lemma_ae_run_split(s, st3, p, p + 1, n);
            lemma_ae_run_split(s, st4, p + 1, q, n);
            assert(st6.ind == text_index(e));
            st6
        },
    };
    assert(ae_run(s, st0, 0, n) == Some(fin));
    if s.len() > n {
        assert(s[n] == '\n');
        lemma_ae_run_split(s, st0, 0, n, n + 1);
        lemma_ae_run_one(s, fin, n);
        assert(ae_step(s, n, fin) == Some(fin));
    }
    assert(fin.ind == text_index(e));
}

/// Parsing the text of a well-formed expression gives the expression back,
/// and so does parsing it with the line break that reading a line leaves.
pub proof fn law_ae_parse_text(e: AeV)
    requires
        ae_wf(e),
        ae_text(e).len() + 1 < usize::MAX,
    ensures
        spec_parse(ae_text(e)) == Some(e),
        spec_parse(ae_text(e) + seq!['\n']) == Some(e),
    decreases e,
{
    lemma_ae_parse_line(ae_text(e), e);
    lemma_ae_parse_line(ae_text(e) + seq!['\n'], e);
}

proof fn lemma_ae_parse_line(s: Seq<char>, e: AeV)
    requires
        ae_wf(e),
        is_line(s, ae_text(e)),
        s.len() < usize::MAX,
    ensures
        spec_parse(s) == Some(e),
    decreases e,
{
    lemma_ae_text(e);
    lemma_ae_scan_text(s, e);
    let t = ae_text(e);
    let n = t.len() as int;
    assert(s.subrange(0, n) =~= t);
    assert(is_ascii_chars(s)) by {
        assert forall|m: int| 0 <= m < s.len() implies '\0' <= #[trigger] s[m] <= '\u{7f}' by {
            if m < n {
                assert(s[m] == t[m]);
            }
        }
    }
    let ind = text_index(e);
    match e {
        AeV::Num(lit) => {
            law_ascii_slice(s, 0, n);
            law_ascii_slice(s, 0, 1);
            assert(substring_index(ind).oper == ' ');
        },
        AeV::Add(l, r) | AeV::Sub(l, r) => {
            let op = if e is Add { '+' } else { '-' };
            let tl = ae_text(*l);
            let tr = ae_text(*r);
            assert(t == brace_text(op, tl, tr));
            lemma_brace_parts(s, 0, op, tl, tr);
            let p = 3 + tl.len() as int;
            law_ascii_slice(s, 3, p);
            law_ascii_slice(s, p + 1, p + 1 + tr.len());
            assert(s.subrange(3, p) == tl);
            assert(s.subrange(p + 1, p + 1 + tr.len()) == tr);
            lemma_ae_parse_line(tl, *l);
            lemma_ae_parse_line(tr, *r);
        },
    }
}

} // verus!
