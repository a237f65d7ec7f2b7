use vstd::prelude::*;

use crate::engine::{Engine, FunctionEntry, arity_in};
use crate::expr::{
    Expr, Term, Tree, add_of, div_of, lemma_children, mul_of, neg_of, pow_of,
    result_view, sub_of, terms,
};
use crate::functions::{ln, ln_of, same_text};
use crate::number::Number;
use crate::types::{Operator, SymErr, is_unary};

verus! {

pub open spec fn is_arithmetic(op: Operator) -> bool {
    op == Operator::Add || op == Operator::Sub || op == Operator::Mul || op == Operator::Div || op
        == Operator::Pow
}

/// A binary operator applied to two evaluated operands.
pub open spec fn apply_of(op: Operator, l: Term, r: Term) -> Term {
    match op {
        Operator::Add => add_of(l, r),
        Operator::Sub => sub_of(l, r),
        Operator::Mul => mul_of(l, r),
        Operator::Div => div_of(l, r),
        _ => pow_of(l, r),
    }
}

/// A registered function applied to evaluated arguments.
pub open spec fn native_of(name: Seq<char>, args: Seq<Term>) -> Result<Term, SymErr> {
    if name == "ln"@ {
        ln_of(args)
    } else {
        Ok(Term::Function(name, args))
    }
}

/// Evaluation: constant subtrees fold to numbers, symbolic ones stay, and
/// the first error of a registered function ends it.
pub open spec fn eval_term(fns: Seq<FunctionEntry>, t: Term) -> Result<Term, SymErr>
    decreases t,
{
    match t {
        Term::Function(name, args) => match eval_terms(fns, args) {
            Err(x) => Err(x),
            Ok(vals) => if arity_in(fns, name) is Some {
                native_of(name, vals)
            } else {
                Ok(Term::Function(name, vals))
            },
        },
        Term::Operator(op, cs) => if is_unary(op) && cs.len() == 1 {
            match eval_term(fns, cs[0]) {
                Err(x) => Err(x),
                Ok(x) => Ok(
                    if op == Operator::Pos {
                        x
                    } else {
                        neg_of(x)
                    },
                ),
            }
        } else if is_arithmetic(op) && cs.len() == 2 {
            match eval_term(fns, cs[0]) {
                Err(x) => Err(x),
                Ok(l) => match eval_term(fns, cs[1]) {
                    Err(x) => Err(x),
                    Ok(r) => Ok(apply_of(op, l, r)),
                },
            }
        } else {
            Ok(t)
        },
        _ => Ok(t),
    }
}

/// Evaluation of each term, left to right; the first error wins.
pub open spec fn eval_terms(fns: Seq<FunctionEntry>, s: Seq<Term>) -> Result<Seq<Term>, SymErr>
    decreases s,
{
    if s.len() == 0 {
        Ok(Seq::empty())
    } else {
        match eval_terms(fns, s.drop_last()) {
            Err(x) => Err(x),
            Ok(init) => match eval_term(fns, s.last()) {
                Err(x) => Err(x),
                Ok(v) => Ok(init.push(v)),
            },
        }
    }
}

pub open spec fn results_view(r: Result<Vec<Expr>, SymErr>) -> Result<Seq<Term>, SymErr> {
    match r {
        Ok(v) => Ok(terms(v@)),
        Err(x) => Err(x),
    }
}

/// Evaluates every tree of `v`, left to right.
pub fn eval_all(engine: &Engine, v: &Vec<Expr>) -> (r: Result<Vec<Expr>, SymErr>)
    ensures
        results_view(r) == eval_terms(engine.functions@, terms(v@)),
    decreases v,
{
    let ghost fns = engine.functions@;
    let ghost all = terms(v@);
    let mut out: Vec<Expr> = Vec::new();
    let mut i: usize = 0;
    assert(all.take(0) =~= Seq::<Term>::empty());
    assert(terms(out@) =~= Seq::<Term>::empty());
    while i < v.len()
        invariant
            i <= v.len(),
            fns == engine.functions@,
            all == terms(v@),
            eval_terms(fns, all.take(i as int)) == Ok::<Seq<Term>, SymErr>(terms(out@)),
        decreases v.len() - i,
    {
        proof {
            assert(decreases_to!(v => v@));
            assert(decreases_to!(v@ => v@[i as int]));
            assert(all.take(i + 1).drop_last() =~= all.take(i as int));
            assert(all.take(i + 1).last() == v@[i as int]@);
        }
        match eval_tree(engine, &v[i]) {
            Err(x) => {
                proof {
                    lemma_eval_terms_prefix(fns, all, i + 1);
                }
                return Err(x);
            },
            Ok(e) => {
                let ghost before = out@;
                out.push(e);
                proof {
                    assert(terms(out@) =~= terms(before).push(out@.last()@));
                }
            },
        }
        i = i + 1;
    }
    assert(all.take(v.len() as int) =~= all);
    Ok(out)
}

/// An error in a prefix is the error of the whole.
proof fn lemma_eval_terms_prefix(fns: Seq<FunctionEntry>, s: Seq<Term>, n: int)
    requires
        0 <= n <= s.len(),
        eval_terms(fns, s.take(n)) is Err,
    ensures
        eval_terms(fns, s) == eval_terms(fns, s.take(n)),
    decreases s.len() - n,
{
    if n < s.len() {
        assert(s.take(n + 1).drop_last() =~= s.take(n));
        lemma_eval_terms_prefix(fns, s, n + 1);
    } else {
        assert(s.take(n) =~= s);
    }
}

/// Evaluates a tree.
pub fn eval_tree(engine: &Engine, tree: &Expr) -> (r: Result<Expr, SymErr>)
    ensures
        result_view(r) == eval_term(engine.functions@, tree@),
    decreases tree,
{
    proof {
        lemma_children(tree);
    }
    match tree {
        Expr::Function(t) => {
            match eval_all(engine, &t.next) {
                Err(x) => Err(x),
                Ok(vals) => {
                    if engine.lookup(t.value.as_str()).is_some() {
                        if same_text(t.value.as_str(), "ln") {
                            ln(&vals)
                        } else {
                            let r = Expr::Function(Tree { value: t.value.clone(), next: vals });
                            proof {
                                lemma_children(&r);
                            }
                            Ok(r)
                        }
                    } else {
                        let r = Expr::Function(Tree { value: t.value.clone(), next: vals });
                        proof {
                            lemma_children(&r);
                        }
                        Ok(r)
                    }
                },
            }
        },
        Expr::Operator(t) => {
            let op = t.value;
            if (op == Operator::Pos || op == Operator::Neg) && t.next.len() == 1 {
                proof {
                    assert(decreases_to!(t.next => t.next@));
                    assert(decreases_to!(t.next@ => t.next@[0]));
                }
                match eval_tree(engine, &t.next[0]) {
                    Err(x) => Err(x),
                    Ok(x) => if op == Operator::Pos {
                        Ok(x)
                    } else {
                        Ok(x.neg())
                    },
                }
            } else if (op == Operator::Add || op == Operator::Sub || op == Operator::Mul || op
                == Operator::Div || op == Operator::Pow) && t.next.len() == 2 {
                proof {
                    assert(decreases_to!(t.next => t.next@));
                    assert(decreases_to!(t.next@ => t.next@[0]));
                    assert(decreases_to!(t.next@ => t.next@[1]));
                }
                match eval_tree(engine, &t.next[0]) {
                    Err(x) => Err(x),
                    Ok(l) => match eval_tree(engine, &t.next[1]) {
                        Err(x) => Err(x),
                        Ok(r) => Ok(
                            match op {
                                Operator::Add => l.add(r),
                                Operator::Sub => l.sub(r),
                                Operator::Mul => l.mul(r),
                                Operator::Div => l.div(r),
                                _ => l.pow(r),
                            },
                        ),
                    },
                }
            } else {
                Ok(tree.duplicate())
            }
        },
        _ => Ok(tree.duplicate()),
    }
}

impl Expr {
    /// Evaluates the tree (see `eval_term`).
    pub fn eval(&self, engine: &Engine) -> (r: Result<Expr, SymErr>)
        ensures
            result_view(r) == eval_term(engine.functions@, self@),
    {
        eval_tree(engine, self)
    }
}

/// Evaluating an evaluated tree changes nothing: `eval(eval(x)) == eval(x)`
/// whenever the first evaluation succeeds.
pub proof fn lemma_eval_idempotent(fns: Seq<FunctionEntry>, t: Term)
    requires
        eval_term(fns, t) is Ok,
    ensures
        eval_term(fns, eval_term(fns, t)->Ok_0) == eval_term(fns, t),
    decreases t,
{
    match t {
        Term::Function(name, args) => {
            lemma_eval_terms_idempotent(fns, args);
        },
        Term::Operator(op, cs) => {
            if is_unary(op) && cs.len() == 1 {
                lemma_eval_idempotent(fns, cs[0]);
                let x = eval_term(fns, cs[0])->Ok_0;
                if op == Operator::Neg {
                    let n = neg_of(x);
                    if !(n is Number) {
                        assert(n == Term::Operator(Operator::Neg, seq![x]));
                        assert(seq![x][0] == x);
                    }
                }
            } else if is_arithmetic(op) && cs.len() == 2 {
                lemma_eval_idempotent(fns, cs[0]);
                lemma_eval_idempotent(fns, cs[1]);
                let l = eval_term(fns, cs[0])->Ok_0;
                let r = eval_term(fns, cs[1])->Ok_0;
                let a = apply_of(op, l, r);
                if !(a is Number) {
                    assert(a == Term::Operator(op, seq![l, r]));
                    assert(seq![l, r][0] == l);
                    assert(seq![l, r][1] == r);
                }
            }
        },
        _ => {},
    }
}

/// Evaluating evaluated arguments changes nothing.
pub proof fn lemma_eval_terms_idempotent(fns: Seq<FunctionEntry>, s: Seq<Term>)
    requires
        eval_terms(fns, s) is Ok,
    ensures
        eval_terms(fns, eval_terms(fns, s)->Ok_0) == eval_terms(fns, s),
    decreases s,
{
    if s.len() > 0 {
        lemma_eval_terms_idempotent(fns, s.drop_last());
        lemma_eval_idempotent(fns, s.last());
        let init = eval_terms(fns, s.drop_last())->Ok_0;
        let v = eval_term(fns, s.last())->Ok_0;
        assert(init.push(v).drop_last() =~= init);
        assert(init.push(v).last() == v);
    }
}

/// A tree of numbers in lowest terms under `+`, `-`, `*`, `/` and the signs.
pub open spec fn rational_tree(t: Term) -> bool
    decreases t,
{
    match t {
        Term::Number(n) => n.reduced(),
        Term::Operator(op, cs) => if is_unary(op) {
            cs.len() == 1 && rational_tree(cs[0])
        } else {
            &&& (op == Operator::Add || op == Operator::Sub || op == Operator::Mul || op
                == Operator::Div)
            &&& cs.len() == 2
            &&& rational_tree(cs[0])
            &&& rational_tree(cs[1])
        },
        _ => false,
    }
}

/// The exact rational value of such a tree, as a numerator and a
/// denominator (the denominator is zero after a division by zero).
pub open spec fn exact_value(t: Term) -> (int, int)
    decreases t,
{
    match t {
        Term::Number(n) => (n.num(), n.den()),
        Term::Operator(op, cs) => if cs.len() == 1 {
            let (p, q) = exact_value(cs[0]);
            if op == Operator::Neg {
                (-p, q)
            } else {
                (p, q)
            }
        } else if cs.len() == 2 {
            let (p1, q1) = exact_value(cs[0]);
            let (p2, q2) = exact_value(cs[1]);
            match op {
                Operator::Add => (p1 * q2 + p2 * q1, q1 * q2),
                Operator::Sub => (p1 * q2 - p2 * q1, q1 * q2),
                Operator::Mul => (p1 * p2, q1 * q2),
                _ => (p1 * q2, q1 * p2),
            }
        } else {
            (0, 1)
        },
        _ => (0, 1),
    }
}

/// `c` is the rational `p / q`.
pub open spec fn equals_ratio(c: Number, p: int, q: int) -> bool {
    q != 0 && c.num() * q == p * c.den()
}

proof fn lemma_cancel(x: int, y: int, k: int)
    requires
        k > 0,
        x * k == y * k,
    ensures
        x == y,
{
    assert((x - y) * k == 0) by (nonlinear_arith)
        requires
            x * k == y * k,
    ;
    assert(x - y == 0) by (nonlinear_arith)
        requires
            (x - y) * k == 0,
            k > 0,
    ;
}

proof fn lemma_ratio_sum(
    an: int,
    ad: int,
    bn: int,
    bd: int,
    cn: int,
    cd: int,
    p1: int,
    q1: int,
    p2: int,
    q2: int,
    sign: int,
)
    requires
        ad > 0,
        bd > 0,
        an * q1 == p1 * ad,
        bn * q2 == p2 * bd,
        cn * (ad * bd) == (an * bd + sign * (bn * ad)) * cd,
    ensures
        cn * (q1 * q2) == (p1 * q2 + sign * (p2 * q1)) * cd,
{
    let x = cn * (q1 * q2);
    let y = (p1 * q2 + sign * (p2 * q1)) * cd;
    assert(x * (ad * bd) == (cn * (ad * bd)) * (q1 * q2)) by (nonlinear_arith)
        requires
            x == cn * (q1 * q2),
    ;
    assert((cn * (ad * bd)) * (q1 * q2) == ((an * bd + sign * (bn * ad)) * cd) * (q1 * q2));
    let u = an * bd;
    let v = bn * ad;
    let w = cd * (q1 * q2);
    assert(((u + sign * v) * cd) * (q1 * q2) == (u + sign * v) * w) by (nonlinear_arith)
        requires
            w == cd * (q1 * q2),
    ;
    assert((u + sign * v) * w == u * w + sign * (v * w)) by (nonlinear_arith);
    assert(u * w == (an * q1) * (bd * cd * q2)) by (nonlinear_arith)
        requires
            u == an * bd,
            w == cd * (q1 * q2),
    ;
    assert(v * w == (bn * q2) * (ad * cd * q1)) by (nonlinear_arith)
        requires
            v == bn * ad,
            w == cd * (q1 * q2),
    ;
    assert((an * q1) * (bd * cd * q2) == (p1 * ad) * (bd * cd * q2));
    assert((bn * q2) * (ad * cd * q1) == (p2 * bd) * (ad * cd * q1));
    let z = cd * (ad * bd);
    let f = p1 * q2;
    let g = p2 * q1;
    assert(y * (ad * bd) == (f + sign * g) * z) by (nonlinear_arith)
        requires
            y == (f + sign * g) * cd,
            z == cd * (ad * bd),
    ;
    assert((f + sign * g) * z == f * z + sign * (g * z)) by (nonlinear_arith);
    assert(f * z == (p1 * ad) * (bd * cd * q2)) by (nonlinear_arith)
        requires
            f == p1 * q2,
            z == cd * (ad * bd),
    ;
    assert(g * z == (p2 * bd) * (ad * cd * q1)) by (nonlinear_arith)
        requires
            g == p2 * q1,
            z == cd * (ad * bd),
    ;
    assert(ad * bd > 0) by (nonlinear_arith)
        requires
            ad > 0,
            bd > 0,
    ;
    lemma_cancel(x, y, ad * bd);
}

proof fn lemma_ratio_product(
    an: int,
    ad: int,
    bn: int,
    bd: int,
    cn: int,
    cd: int,
    p1: int,
    q1: int,
    p2: int,
    q2: int,
)
    requires
        ad > 0,
        bd > 0,
        an * q1 == p1 * ad,
        bn * q2 == p2 * bd,
        cn * (ad * bd) == (an * bn) * cd,
    ensures
        cn * (q1 * q2) == (p1 * p2) * cd,
{
    let x = cn * (q1 * q2);
    let y = (p1 * p2) * cd;
    assert(x * (ad * bd) == (cn * (ad * bd)) * (q1 * q2)) by (nonlinear_arith)
        requires
            x == cn * (q1 * q2),
    ;
    assert((cn * (ad * bd)) * (q1 * q2) == ((an * bn) * cd) * (q1 * q2));
    assert(((an * bn) * cd) * (q1 * q2) == (an * q1) * (bn * q2) * cd) by (nonlinear_arith);
    assert((an * q1) * (bn * q2) * cd == (p1 * ad) * (p2 * bd) * cd);
    assert((p1 * ad) * (p2 * bd) * cd == y * (ad * bd)) by (nonlinear_arith)
        requires
            y == (p1 * p2) * cd,
    ;
    assert(ad * bd > 0) by (nonlinear_arith)
        requires
            ad > 0,
            bd > 0,
    ;
    lemma_cancel(x, y, ad * bd);
}

proof fn lemma_ratio_quotient(
    an: int,
    ad: int,
    bn: int,
    bd: int,
    cn: int,
    cd: int,
    p1: int,
    q1: int,
    p2: int,
    q2: int,
)
    requires
        ad > 0,
        bd > 0,
        an * q1 == p1 * ad,
        bn * q2 == p2 * bd,
        cn * (ad * bn) == (an * bd) * cd,
    ensures
        cn * (q1 * p2) == (p1 * q2) * cd,
{
    let x = cn * (q1 * p2);
    let y = (p1 * q2) * cd;
    assert(x * (ad * bd) == (cn * q1 * ad) * (p2 * bd)) by (nonlinear_arith)
        requires
            x == cn * (q1 * p2),
    ;
    assert((cn * q1 * ad) * (p2 * bd) == (cn * q1 * ad) * (bn * q2));
    assert((cn * q1 * ad) * (bn * q2) == (cn * (ad * bn)) * (q1 * q2)) by (nonlinear_arith);
    assert((cn * (ad * bn)) * (q1 * q2) == ((an * bd) * cd) * (q1 * q2));
    assert(((an * bd) * cd) * (q1 * q2) == (an * q1) * (bd * cd * q2)) by (nonlinear_arith);
    assert((an * q1) * (bd * cd * q2) == (p1 * ad) * (bd * cd * q2));
    assert((p1 * ad) * (bd * cd * q2) == y * (ad * bd)) by (nonlinear_arith)
        requires
            y == (p1 * q2) * cd,
    ;
    assert(ad * bd > 0) by (nonlinear_arith)
        requires
            ad > 0,
            bd > 0,
    ;
    lemma_cancel(x, y, ad * bd);
}

proof fn lemma_ratio_binary(
    op: Operator,
    a: Number,
    b: Number,
    c: Number,
    p1: int,
    q1: int,
    p2: int,
    q2: int,
)
    requires
        a.wf(),
        b.wf(),
        c.wf(),
        equals_ratio(a, p1, q1),
        equals_ratio(b, p2, q2),
        op == Operator::Add ==> c.num() * (a.den() * b.den()) == (a.num() * b.den() + b.num()
            * a.den()) * c.den(),
        op == Operator::Sub ==> c.num() * (a.den() * b.den()) == (a.num() * b.den() - b.num()
            * a.den()) * c.den(),
        op == Operator::Mul ==> c.num() * (a.den() * b.den()) == (a.num() * b.num()) * c.den(),
        op == Operator::Div ==> b.num() != 0 && c.num() * (a.den() * b.num()) == (a.num()
            * b.den()) * c.den(),
        op == Operator::Add || op == Operator::Sub || op == Operator::Mul || op == Operator::Div,
    ensures
        op == Operator::Add ==> equals_ratio(c, p1 * q2 + p2 * q1, q1 * q2),
        op == Operator::Sub ==> equals_ratio(c, p1 * q2 - p2 * q1, q1 * q2),
        op == Operator::Mul ==> equals_ratio(c, p1 * p2, q1 * q2),
        op == Operator::Div ==> equals_ratio(c, p1 * q2, q1 * p2),
{
    let (an, ad, bn, bd, cn, cd) = (a.num(), a.den(), b.num(), b.den(), c.num(), c.den());
    assert(q1 * q2 != 0) by (nonlinear_arith)
        requires
            q1 != 0,
            q2 != 0,
    ;
    if op == Operator::Add {
        assert(an * bd + 1 * (bn * ad) == an * bd + bn * ad);
        lemma_ratio_sum(an, ad, bn, bd, cn, cd, p1, q1, p2, q2, 1);
        assert(p1 * q2 + 1 * (p2 * q1) == p1 * q2 + p2 * q1);
    } else if op == Operator::Sub {
        assert(an * bd + (-1) * (bn * ad) == an * bd - bn * ad);
        lemma_ratio_sum(an, ad, bn, bd, cn, cd, p1, q1, p2, q2, -1);
        assert(p1 * q2 + (-1) * (p2 * q1) == p1 * q2 - p2 * q1);
    } else if op == Operator::Mul {
        lemma_ratio_product(an, ad, bn, bd, cn, cd, p1, q1, p2, q2);
    } else {
        assert(p2 != 0) by (nonlinear_arith)
            requires
                bn * q2 == p2 * bd,
                bn != 0,
                q2 != 0,
        ;
        assert(q1 * p2 != 0) by (nonlinear_arith)
            requires
                q1 != 0,
                p2 != 0,
        ;
        lemma_ratio_quotient(an, ad, bn, bd, cn, cd, p1, q1, p2, q2);
    }
}

/// Exact evaluation: a tree of numbers in lowest terms under `+ - * /` and
/// the signs always evaluates, and whenever the result is a number, it is
/// in lowest terms and equals the exact rational value of the tree; an
/// operation that cannot be done exactly (overflow, division by zero)
/// stays in the tree instead of being rounded.
pub proof fn lemma_exact_evaluation(fns: Seq<FunctionEntry>, t: Term)
    requires
        rational_tree(t),
    ensures
        eval_term(fns, t) is Ok,
        eval_term(fns, t)->Ok_0 matches Term::Number(c) ==> c.reduced() && equals_ratio(
            c,
            exact_value(t).0,
            exact_value(t).1,
        ),
    decreases t,
{
    match t {
        Term::Number(n) => {
            assert(n.num() * n.den() == n.num() * n.den());
        },
        Term::Operator(op, cs) => {
            if is_unary(op) {
                lemma_exact_evaluation(fns, cs[0]);
                let x = eval_term(fns, cs[0])->Ok_0;
                let (p, q) = exact_value(cs[0]);
                if op == Operator::Neg {
                    if let Term::Number(c) = x {
                        if c.spec_neg() is Some {
                            let m = c.spec_neg()->0;
                            assert(crate::number::abs(m.num()) == crate::number::abs(c.num()));
                            assert(m.num() * q == (-p) * m.den()) by (nonlinear_arith)
                                requires
                                    c.num() * q == p * c.den(),
                                    m.num() == -c.num(),
                                    m.den() == c.den(),
                            ;
                        }
                    }
                }
            } else {
                lemma_exact_evaluation(fns, cs[0]);
                lemma_exact_evaluation(fns, cs[1]);
                let l = eval_term(fns, cs[0])->Ok_0;
                let r = eval_term(fns, cs[1])->Ok_0;
                let (p1, q1) = exact_value(cs[0]);
                let (p2, q2) = exact_value(cs[1]);
                if let (Term::Number(a), Term::Number(b)) = (l, r) {
                    crate::number::lemma_exact_arithmetic(a, b);
                    let res = apply_of(op, l, r);
                    if let Term::Number(c) = res {
                        lemma_ratio_binary(op, a, b, c, p1, q1, p2, q2);
                    }
                }
            }
        },
        _ => {},
    }
}

/// The number that exact arithmetic gives for a tree of numbers under
/// `+ - * /` and the signs, when every operation in it has an exact result
/// that fits (no overflow and no division by zero).
pub open spec fn folds(t: Term) -> Option<Number>
    decreases t,
{
    match t {
        Term::Number(n) => Some(n),
        Term::Operator(op, cs) => if cs.len() == 1 {
            match folds(cs[0]) {
                None => None,
                Some(x) => if op == Operator::Neg {
                    x.spec_neg()
                } else {
                    Some(x)
                },
            }
        } else if cs.len() == 2 {
            match (folds(cs[0]), folds(cs[1])) {
                (Some(a), Some(b)) => match op {
                    Operator::Add => a.spec_add(b),
                    Operator::Sub => a.spec_sub(b),
                    Operator::Mul => a.spec_mul(b),
                    Operator::Div => a.spec_div(b),
                    _ => None,
                },
                _ => None,
            }
        } else {
            None
        },
        _ => None,
    }
}

/// Exact arithmetic of whole expressions: when no operation of such a tree
/// overflows or divides by zero, evaluation gives a number, in lowest
/// terms, equal to the exact rational value of the tree.
pub proof fn lemma_evaluation_completes(fns: Seq<FunctionEntry>, t: Term)
    requires
        rational_tree(t),
        folds(t) is Some,
    ensures
        eval_term(fns, t) == Ok::<Term, SymErr>(Term::Number(folds(t)->0)),
        folds(t)->0.reduced(),
        equals_ratio(folds(t)->0, exact_value(t).0, exact_value(t).1),
    decreases t,
{
    match t {
        Term::Operator(op, cs) => {
            if is_unary(op) {
                lemma_evaluation_completes(fns, cs[0]);
            } else {
                lemma_evaluation_completes(fns, cs[0]);
                lemma_evaluation_completes(fns, cs[1]);
            }
        },
        _ => {},
    }
    lemma_exact_evaluation(fns, t);
}

} // verus!
