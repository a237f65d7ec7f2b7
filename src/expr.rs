use vstd::prelude::*;

use crate::number::Number;
use crate::types::{Operator, SymErr};

verus! {

/// A node value with its ordered children.
#[derive(Debug, PartialEq)]
pub struct Tree<T, U> {
    pub value: T,
    pub next: Vec<U>,
}

/// An expression tree.
///
/// `Identifier` nodes are pattern variables; they appear only in the
/// simplifier's rule templates.
#[derive(Debug, PartialEq)]
pub enum Expr {
    Number(Number),
    Variable(String),
    Function(Tree<String, Expr>),
    Operator(Tree<Operator, Expr>),
    Identifier(u32),
}

/// The mathematical value of an `Expr`.
pub enum Term {
    Number(Number),
    Variable(Seq<char>),
    Function(Seq<char>, Seq<Term>),
    Operator(Operator, Seq<Term>),
    Identifier(u32),
}

/// A token between tokenizing and tree building.
#[derive(Debug, PartialEq)]
pub enum Symbol {
    Number(Number),
    Variable(String),
    Function(String),
    Operator(Operator),
    /// the separator between the arguments of a call
    Comma,
}

/// The mathematical value of a `Symbol`.
pub enum Token {
    Number(Number),
    Variable(Seq<char>),
    Function(Seq<char>),
    Operator(Operator),
    Comma,
}

/// The term that a tree stands for.
pub open spec fn term_of(e: Expr) -> Term
    decreases e,
{
    match e {
        Expr::Number(n) => Term::Number(n),
        Expr::Variable(s) => Term::Variable(s@),
        Expr::Function(t) => Term::Function(
            t.value@,
            Seq::new(
                t.next@.len(),
                |i: int|
                    if 0 <= i < t.next@.len() {
                        term_of(t.next@[i])
                    } else {
                        Term::Identifier(0)
                    },
            ),
        ),
        Expr::Operator(t) => Term::Operator(
            t.value,
            Seq::new(
                t.next@.len(),
                |i: int|
                    if 0 <= i < t.next@.len() {
                        term_of(t.next@[i])
                    } else {
                        Term::Identifier(0)
                    },
            ),
        ),
        Expr::Identifier(i) => Term::Identifier(i),
    }
}

impl View for Expr {
    type V = Term;

    open spec fn view(&self) -> Term {
        term_of(*self)
    }
}

impl View for Symbol {
    type V = Token;

    open spec fn view(&self) -> Token {
        match self {
            Symbol::Number(n) => Token::Number(*n),
            Symbol::Variable(s) => Token::Variable(s@),
            Symbol::Function(s) => Token::Function(s@),
            Symbol::Operator(o) => Token::Operator(*o),
            Symbol::Comma => Token::Comma,
        }
    }
}

/// The views of a sequence of trees.
pub open spec fn terms(v: Seq<Expr>) -> Seq<Term> {
    Seq::new(v.len(), |i: int| v[i]@)
}

/// The views of a sequence of tokens.
pub open spec fn tokens(v: Seq<Symbol>) -> Seq<Token> {
    Seq::new(v.len(), |i: int| v[i]@)
}

/// `Ok` and `Err` carried over to views.
pub open spec fn result_view(r: Result<Expr, SymErr>) -> Result<Term, SymErr> {
    match r {
        Ok(e) => Ok(e@),
        Err(x) => Err(x),
    }
}

pub open spec fn binary(op: Operator, l: Term, r: Term) -> Term {
    Term::Operator(op, seq![l, r])
}

/// The sum of two trees, folded to a number when both are numbers.
pub open spec fn add_of(l: Term, r: Term) -> Term {
    match (l, r) {
        (Term::Number(a), Term::Number(b)) if a.spec_add(b) is Some => Term::Number(
            a.spec_add(b)->0,
        ),
        _ => binary(Operator::Add, l, r),
    }
}

pub open spec fn sub_of(l: Term, r: Term) -> Term {
    match (l, r) {
        (Term::Number(a), Term::Number(b)) if a.spec_sub(b) is Some => Term::Number(
            a.spec_sub(b)->0,
        ),
        _ => binary(Operator::Sub, l, r),
    }
}

pub open spec fn mul_of(l: Term, r: Term) -> Term {
    match (l, r) {
        (Term::Number(a), Term::Number(b)) if a.spec_mul(b) is Some => Term::Number(
            a.spec_mul(b)->0,
        ),
        _ => binary(Operator::Mul, l, r),
    }
}

pub open spec fn div_of(l: Term, r: Term) -> Term {
    match (l, r) {
        (Term::Number(a), Term::Number(b)) if a.spec_div(b) is Some => Term::Number(
            a.spec_div(b)->0,
        ),
        _ => binary(Operator::Div, l, r),
    }
}

pub open spec fn pow_of(l: Term, r: Term) -> Term {
    match (l, r) {
        (Term::Number(a), Term::Number(b)) if a.spec_pow(b) is Some => Term::Number(
            a.spec_pow(b)->0,
        ),
        _ => binary(Operator::Pow, l, r),
    }
}

/// The negation of a tree, folded when it is a number.
pub open spec fn neg_of(t: Term) -> Term {
    match t {
        Term::Number(a) if a.spec_neg() is Some => Term::Number(a.spec_neg()->0),
        _ => Term::Operator(Operator::Neg, seq![t]),
    }
}

/// What `Expr::operate` gives.
pub open spec fn operate_of(l: Term, op: Operator, r: Option<Term>) -> Result<Term, SymErr> {
    match op {
        Operator::Pos => Ok(l),
        Operator::Neg => Ok(neg_of(l)),
        Operator::LPa | Operator::RPa => Err(SymErr::InvalidOP),
        _ => match r {
            None => Err(SymErr::InvalidFunctionArgCount),
            Some(r) => Ok(
                match op {
                    Operator::Add => add_of(l, r),
                    Operator::Sub => sub_of(l, r),
                    Operator::Mul => mul_of(l, r),
                    Operator::Div => div_of(l, r),
                    _ => pow_of(l, r),
                },
            ),
        },
    }
}

/// The children of a node, seen through the view.
pub proof fn lemma_children(e: &Expr)
    ensures
        e matches Expr::Function(t) ==> e@ == Term::Function(t.value@, terms(t.next@)),
        e matches Expr::Operator(t) ==> e@ == Term::Operator(t.value, terms(t.next@)),
{
    match e {
        Expr::Function(t) => {
            assert(e@->Function_1 =~= terms(t.next@));
        },
        Expr::Operator(t) => {
            assert(e@->Operator_1 =~= terms(t.next@));
        },
        _ => {},
    }
}

pub(crate) fn node(op: Operator, l: Expr, r: Expr) -> (e: Expr)
    ensures
        e@ == binary(op, l@, r@),
{
    let e = Expr::Operator(Tree { value: op, next: vec![l, r] });
    proof {
        let t = e@;
        assert(t->Operator_1 =~= seq![l@, r@]);
    }
    e
}

impl Expr {
    /// A copy of the tree.
    pub fn duplicate(&self) -> (r: Expr)
        ensures
            r@ == self@,
        decreases self,
    {
        match self {
            Expr::Number(n) => Expr::Number(*n),
            Expr::Variable(s) => Expr::Variable(s.clone()),
            Expr::Function(t) => {
                let next = duplicate_all(&t.next);
                let r = Expr::Function(Tree { value: t.value.clone(), next });
                proof {
                    lemma_children(&r);
                    lemma_children(self);
                }
                r
            },
            Expr::Operator(t) => {
                let next = duplicate_all(&t.next);
                let r = Expr::Operator(Tree { value: t.value, next });
                proof {
                    lemma_children(&r);
                    lemma_children(self);
                }
                r
            },
            Expr::Identifier(i) => Expr::Identifier(*i),
        }
    }

    pub fn add(self, rhs: Expr) -> (r: Expr)
        ensures
            r@ == add_of(self@, rhs@),
    {
        if let Expr::Number(a) = &self {
            if let Expr::Number(b) = &rhs {
                if let Some(c) = a.add(*b) {
                    return Expr::Number(c);
                }
            }
        }
        node(Operator::Add, self, rhs)
    }

    pub fn sub(self, rhs: Expr) -> (r: Expr)
        ensures
            r@ == sub_of(self@, rhs@),
    {
        if let Expr::Number(a) = &self {
            if let Expr::Number(b) = &rhs {
                if let Some(c) = a.sub(*b) {
                    return Expr::Number(c);
                }
            }
        }
        node(Operator::Sub, self, rhs)
    }

    pub fn mul(self, rhs: Expr) -> (r: Expr)
        ensures
            r@ == mul_of(self@, rhs@),
    {
        if let Expr::Number(a) = &self {
            if let Expr::Number(b) = &rhs {
                if let Some(c) = a.mul(*b) {
                    return Expr::Number(c);
                }
            }
        }
        node(Operator::Mul, self, rhs)
    }

    pub fn div(self, rhs: Expr) -> (r: Expr)
        ensures
            r@ == div_of(self@, rhs@),
    {
        if let Expr::Number(a) = &self {
            if let Expr::Number(b) = &rhs {
                if let Some(c) = a.div(*b) {
                    return Expr::Number(c);
                }
            }
        }
        node(Operator::Div, self, rhs)
    }

    /// `self ^ exp`, folded when both are numbers and the power is exact.
    pub fn pow(self, exp: Expr) -> (r: Expr)
        ensures
            r@ == pow_of(self@, exp@),
    {
        if let Expr::Number(a) = &self {
            if let Expr::Number(b) = &exp {
                if let Some(c) = a.pow(*b) {
                    return Expr::Number(c);
                }
            }
        }
        node(Operator::Pow, self, exp)
    }

    pub fn neg(self) -> (r: Expr)
        ensures
            r@ == neg_of(self@),
    {
        if let Expr::Number(a) = &self {
            if let Some(c) = a.neg() {
                return Expr::Number(c);
            }
        }
        let r = Expr::Operator(Tree { value: Operator::Neg, next: vec![self] });
        proof {
            assert(r@->Operator_1 =~= seq![self@]);
        }
        r
    }

    /// Applies `oper` to `self` (and `rhs` for the binary operators).
    pub fn operate(self, oper: Operator, rhs: Option<Expr>) -> (r: Result<Expr, SymErr>)
        ensures
            result_view(r) == operate_of(
                self@,
                oper,
                match rhs {
                    Some(e) => Some(e@),
                    None => None,
                },
            ),
    {
        match oper {
            Operator::Pos => Ok(self),
            Operator::Neg => Ok(self.neg()),
            Operator::LPa | Operator::RPa => Err(SymErr::InvalidOP),
            _ => match rhs {
                None => Err(SymErr::InvalidFunctionArgCount),
                Some(r) => match oper {
                    Operator::Add => Ok(self.add(r)),
                    Operator::Sub => Ok(self.sub(r)),
                    Operator::Mul => Ok(self.mul(r)),
                    Operator::Div => Ok(self.div(r)),
                    _ => Ok(self.pow(r)),
                },
            },
        }
    }

    /// A call of the function `name` on `exp`.
    pub fn function(name: &str, exp: Vec<Expr>) -> (r: Expr)
        ensures
            r@ == Term::Function(name@, terms(exp@)),
    {
        let r = Expr::Function(Tree { value: name.to_string(), next: exp });
        proof {
            lemma_children(&r);
        }
        r
    }
}

/// Copies of a sequence of trees.
pub fn duplicate_all(v: &Vec<Expr>) -> (r: Vec<Expr>)
    ensures
        terms(r@) == terms(v@),
    decreases v,
{
    let mut r: Vec<Expr> = Vec::new();
    let mut i: usize = 0;
    while i < v.len()
        invariant
            i <= v.len(),
            r@.len() == i,
            forall|j: int| 0 <= j < i ==> r@[j]@ == v@[j]@,
        decreases v.len() - i,
    {
        proof {
            assert(decreases_to!(v => v@));
            assert(decreases_to!(v@ => v@[i as int]));
        }
        r.push(v[i].duplicate());
        i = i + 1;
    }
    assert(terms(r@) =~= terms(v@));
    r
}

} // verus!
