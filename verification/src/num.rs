//! Numbers as the languages compute them: a literal as written in the source,
//! or the sum or difference of two numbers. Turning a number into a machine
//! float (parsing each literal, adding and subtracting in order) is left to the
//! caller; everything that decides which numbers are combined is here.
use vstd::prelude::*;

verus! {

/// A number: a literal, or a sum or difference of numbers.
#[derive(Debug)]
pub enum Num {
    Lit(String),
    Plus(Box<Num>, Box<Num>),
    Minus(Box<Num>, Box<Num>),
}

/// The mathematical model of a [`Num`]: literals are character sequences.
pub enum NumV {
    Lit(Seq<char>),
    Plus(Box<NumV>, Box<NumV>),
    Minus(Box<NumV>, Box<NumV>),
}

/// The model of a number.
pub open spec fn num_view(n: Num) -> NumV
    decreases n,
{
    match n {
        Num::Lit(s) => NumV::Lit(s@),
        Num::Plus(l, r) => NumV::Plus(Box::new(num_view(*l)), Box::new(num_view(*r))),
        Num::Minus(l, r) => NumV::Minus(Box::new(num_view(*l)), Box::new(num_view(*r))),
    }
}

/// The model of a number is built node by node: a literal keeps its text,
/// and each operand of a sum or difference stays in its place.
pub proof fn law_num_view_structure(t: String, l: Num, r: Num)
    ensures
        num_view(Num::Lit(t)) == NumV::Lit(t@),
        num_view(Num::Plus(Box::new(l), Box::new(r))) == NumV::Plus(
            Box::new(num_view(l)),
            Box::new(num_view(r)),
        ),
        num_view(Num::Minus(Box::new(l), Box::new(r))) == NumV::Minus(
            Box::new(num_view(l)),
            Box::new(num_view(r)),
        ),
{
}

impl View for Num {
    type V = NumV;

    open spec fn view(&self) -> NumV {
        num_view(*self)
    }
}

impl Num {
    /// A copy of the number with the same model.
    pub fn duplicate(&self) -> (r: Num)
        ensures
            r@ == self@,
        decreases self,
    {
        match self {
            Num::Lit(s) => Num::Lit(s.clone()),
            Num::Plus(l, r) => Num::Plus(Box::new(l.duplicate()), Box::new(r.duplicate())),
            Num::Minus(l, r) => Num::Minus(Box::new(l.duplicate()), Box::new(r.duplicate())),
        }
    }
}

} // verus!
