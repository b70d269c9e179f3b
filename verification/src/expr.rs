//! The expression tree, its mathematical view, and the error type.

use vstd::prelude::*;

verus! {

/// The built-in arithmetic operations that an environment can bind.
#[derive(Clone, Copy, Debug, PartialEq, Eq, Structural)]
pub enum Builtin {
    Add,
    Sub,
    Mul,
    Div,
}

/// An expression: what the parser builds and what evaluation returns.
///
/// A `Number` holds the bit pattern of an IEEE-754 double.
#[derive(Debug, PartialEq)]
pub enum LispExpr {
    Symbol(String),
    Number(u64),
    List(Vec<LispExpr>),
    Func(Builtin),
}

/// The mathematical value of a [`LispExpr`].
pub ghost enum Form {
    Symbol(Seq<char>),
    Number(u64),
    List(Seq<Form>),
    Func(Builtin),
}

/// A failure, with the reason in words.
#[derive(Debug, PartialEq)]
pub enum LispError {
    Reason(String),
}

impl View for LispError {
    type V = Seq<char>;

    open spec fn view(&self) -> Seq<char> {
        match self {
            LispError::Reason(s) => s@,
        }
    }
}

impl View for LispExpr {
    type V = Form;

    open spec fn view(&self) -> Form
        decreases self,
    {
        match self {
            LispExpr::Symbol(s) => Form::Symbol(s@),
            LispExpr::Number(n) => Form::Number(*n),
            LispExpr::List(v) => Form::List(forms(v@)),
            LispExpr::Func(b) => Form::Func(*b),
        }
    }
}

/// The views of a sequence of expressions, item by item.
pub open spec fn forms(items: Seq<LispExpr>) -> Seq<Form>
    decreases items,
{
    Seq::new(
        items.len(),
        |i: int|
            if 0 <= i < items.len() {
                items[i]@
            } else {
                Form::List(Seq::empty())
            },
    )
}

impl LispError {
    /// An error with the given reason.
    pub fn new(reason: &str) -> (e: LispError)
        ensures
            e@ == reason@,
    {
        LispError::Reason(String::from_str(reason))
    }

    /// The reason, as text.
    pub fn message(&self) -> (s: String)
        ensures
            s@ == self@,
    {
        match self {
            LispError::Reason(s) => s.clone(),
        }
    }
}

impl LispExpr {
    /// A deep copy of the expression.
    pub fn copy(&self) -> (r: LispExpr)
        ensures
            r@ == self@,
        decreases self,
    {
        match self {
            LispExpr::Symbol(s) => LispExpr::Symbol(s.clone()),
            LispExpr::Number(n) => LispExpr::Number(*n),
            LispExpr::Func(b) => LispExpr::Func(*b),
            LispExpr::List(v) => {
                let mut out: Vec<LispExpr> = Vec::new();
                let mut i: usize = 0;
                while i < v.len()
                    invariant
                        i <= v.len(),
                        out.len() == i,
                        decreases_to!(*self => *v),
                        forall|k: int| 0 <= k < i ==> out@[k]@ == v@[k]@,
                    decreases v.len() - i,
                {
                    proof {
                        vstd::std_specs::vec::axiom_vec_index_decreases(*v, i as int);
                    }
                    let item = v[i].copy();
                    out.push(item);
                    i += 1;
                }
                proof {
                    assert(forms(out@) =~= forms(v@));
                }
                LispExpr::List(out)
            },
        }
    }
}

} // verus!
