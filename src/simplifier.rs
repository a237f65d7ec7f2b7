use vstd::prelude::*;

use crate::engine::Engine;
use crate::expr::{Expr, Term, Tree, binary, lemma_children, node, terms};
use crate::number::Number;
use crate::types::Operator;
use std::collections::HashMap;
use vstd::string::StringExecFns;

verus! {

broadcast use vstd::std_specs::hash::group_hash_axioms;

/// The most passes over the rule table that one simplification makes: one
/// pass per `u64` value, a bound that no run reaches in practice.
pub const PASS_LIMIT: u64 = 18446744073709551615;

/// An ordered table of rewrite rules, each a (matcher, replacement) pair of
/// templates whose `Identifier` nodes are pattern variables.
pub struct Simplifier {
    pub rules: Vec<(Expr, Expr)>,
}

impl View for Simplifier {
    type V = Seq<(Term, Term)>;

    open spec fn view(&self) -> Seq<(Term, Term)> {
        Seq::new(self.rules@.len(), |i: int| (self.rules@[i].0@, self.rules@[i].1@))
    }
}

/// Structural matching of template `m` against `t`, extending bindings `b`.
/// A pattern variable matches anything the first time and, after that, only
/// a tree equal to the one it is bound to.
pub open spec fn unify(m: Term, t: Term, b: Map<u32, Term>) -> Option<Map<u32, Term>>
    decreases m,
{
    match m {
        Term::Identifier(k) => if b.contains_key(k) {
            if b[k] == t {
                Some(b)
            } else {
                None
            }
        } else {
            Some(b.insert(k, t))
        },
        Term::Number(a) => if t == Term::Number(a) {
            Some(b)
        } else {
            None
        },
        Term::Variable(a) => if t == Term::Variable(a) {
            Some(b)
        } else {
            None
        },
        Term::Function(n, args) => match t {
            Term::Function(n2, args2) => if n == n2 && args.len() == args2.len() {
                unify_all(args, args2, b)
            } else {
                None
            },
            _ => None,
        },
        Term::Operator(op, cs) => match t {
            Term::Operator(op2, cs2) => if op == op2 && cs.len() == cs2.len() {
                unify_all(cs, cs2, b)
            } else {
                None
            },
            _ => None,
        },
    }
}

/// Matching of children, left to right, threading the bindings.
pub open spec fn unify_all(ms: Seq<Term>, ts: Seq<Term>, b: Map<u32, Term>) -> Option<
    Map<u32, Term>,
>
    decreases ms,
{
    if ms.len() == 0 || ts.len() == 0 {
        Some(b)
    } else {
        match unify_all(ms.drop_last(), ts.drop_last(), b) {
            None => None,
            Some(b2) => unify(ms.last(), ts.last(), b2),
        }
    }
}

/// The template `tpl` with every bound pattern variable replaced.
pub open spec fn subst(tpl: Term, b: Map<u32, Term>) -> Term
    decreases tpl,
{
    match tpl {
        Term::Identifier(k) => if b.contains_key(k) {
            b[k]
        } else {
            tpl
        },
        Term::Function(n, args) => Term::Function(
            n,
            Seq::new(
                args.len(),
                |i: int|
                    if 0 <= i < args.len() {
                        subst(args[i], b)
                    } else {
                        tpl
                    },
            ),
        ),
        Term::Operator(op, cs) => Term::Operator(
            op,
            Seq::new(
                cs.len(),
                |i: int|
                    if 0 <= i < cs.len() {
                        subst(cs[i], b)
                    } else {
                        tpl
                    },
            ),
        ),
        _ => tpl,
    }
}

/// The first `k` rules tried in order against the root; each match replaces
/// the root before the next rule is tried. The flag says whether any matched.
pub open spec fn pass_upto(rules: Seq<(Term, Term)>, t: Term, k: nat) -> (Term, bool)
    decreases k,
{
    if k == 0 || k > rules.len() {
        (t, false)
    } else {
        let (t1, found) = pass_upto(rules, t, (k - 1) as nat);
        match unify(rules[k - 1].0, t1, Map::empty()) {
            Some(b) => (subst(rules[k - 1].1, b), true),
            None => (t1, found),
        }
    }
}

pub open spec fn pass(rules: Seq<(Term, Term)>, t: Term) -> (Term, bool) {
    pass_upto(rules, t, rules.len())
}

/// Passes repeated until one matches nothing, at most `fuel` of them.
pub open spec fn simplify_with(rules: Seq<(Term, Term)>, t: Term, fuel: nat) -> Term
    decreases fuel,
{
    if fuel == 0 {
        t
    } else {
        let (t1, found) = pass(rules, t);
        if found {
            simplify_with(rules, t1, (fuel - 1) as nat)
        } else {
            t1
        }
    }
}

/// The bindings of pattern variables, seen through the view.
pub open spec fn binds(m: Map<u32, Expr>) -> Map<u32, Term> {
    m.map_values(|e: Expr| e@)
}

pub open spec fn ident(k: u32) -> Term {
    Term::Identifier(k)
}

pub open spec fn integer(n: i64) -> Term {
    Term::Number(Number::Rational(n, 1))
}

pub open spec fn call(name: Seq<char>, args: Seq<Term>) -> Term {
    Term::Function(name, args)
}

pub open spec fn plus(a: Term, b: Term) -> Term {
    binary(Operator::Add, a, b)
}

pub open spec fn minus(a: Term, b: Term) -> Term {
    binary(Operator::Sub, a, b)
}

pub open spec fn times(a: Term, b: Term) -> Term {
    binary(Operator::Mul, a, b)
}

pub open spec fn over(a: Term, b: Term) -> Term {
    binary(Operator::Div, a, b)
}

pub open spec fn raised(a: Term, b: Term) -> Term {
    binary(Operator::Pow, a, b)
}

/// The rule table, in the order in which the rules are tried.
pub open spec fn rule_table() -> Seq<(Term, Term)> {
    let x = ident(0);
    let y = ident(1);
    let z = ident(2);
    seq![
        (plus(x, plus(y, z)), plus(plus(x, y), z)),
        (plus(integer(0), x), x),
        (plus(x, integer(0)), x),
        (minus(x, x), integer(0)),
        (times(integer(0), x), integer(0)),
        (times(x, integer(0)), integer(0)),
        (times(integer(1), x), x),
        (times(x, integer(1)), x),
        (times(x, x), raised(x, integer(2))),
        (plus(x, x), times(integer(2), x)),
        (over(x, x), integer(1)),
        (times(x, raised(x, y)), raised(x, plus(y, integer(1)))),
        (times(raised(x, y), x), raised(x, plus(y, integer(1)))),
        (raised(raised(x, y), z), raised(x, times(y, z))),
        (times(x, raised(x, integer(-1i64))), integer(1)),
        (over(x, y), times(x, raised(y, integer(-1i64)))),
        (plus(x, times(x, y)), times(x, plus(y, integer(1)))),
        (plus(x, times(y, x)), times(x, plus(y, integer(1)))),
        (plus(times(x, y), x), times(x, plus(y, integer(1)))),
        (plus(times(y, x), x), times(x, plus(y, integer(1)))),
        (minus(x, times(x, y)), times(x, minus(y, integer(1)))),
        (minus(times(x, y), x), times(x, minus(y, integer(1)))),
        (minus(x, times(y, x)), times(x, minus(y, integer(1)))),
        (minus(times(y, x), x), times(x, minus(y, integer(1)))),
        (times(raised(x, y), raised(x, z)), raised(x, plus(y, z))),
        (
            plus(
                raised(call("sin"@, seq![x]), integer(2)),
                raised(call("cos"@, seq![x]), integer(2)),
            ),
            integer(1),
        ),
        (call("log"@, seq![Term::Variable("e"@), x]), call("ln"@, seq![x])),
    ]
}

fn id_node(k: u32) -> (e: Expr)
    ensures
        e@ == ident(k),
{
    Expr::Identifier(k)
}

fn int_node(n: i64) -> (e: Expr)
    ensures
        e@ == integer(n),
{
    Expr::Number(Number::Rational(n, 1))
}

fn call1(name: &str, a: Expr) -> (e: Expr)
    ensures
        e@ == call(name@, seq![a@]),
{
    let e = Expr::Function(Tree { value: String::from_str(name), next: vec![a] });
    proof {
        assert(e@->Function_1 =~= seq![a@]);
    }
    e
}

fn call2(name: &str, a: Expr, b: Expr) -> (e: Expr)
    ensures
        e@ == call(name@, seq![a@, b@]),
{
    let e = Expr::Function(Tree { value: String::from_str(name), next: vec![a, b] });
    proof {
        assert(e@->Function_1 =~= seq![a@, b@]);
    }
    e
}

fn add_node(a: Expr, b: Expr) -> (e: Expr)
    ensures
        e@ == plus(a@, b@),
{
    node(Operator::Add, a, b)
}

fn sub_node(a: Expr, b: Expr) -> (e: Expr)
    ensures
        e@ == minus(a@, b@),
{
    node(Operator::Sub, a, b)
}

fn mul_node(a: Expr, b: Expr) -> (e: Expr)
    ensures
        e@ == times(a@, b@),
{
    node(Operator::Mul, a, b)
}

fn div_node(a: Expr, b: Expr) -> (e: Expr)
    ensures
        e@ == over(a@, b@),
{
    node(Operator::Div, a, b)
}

fn pow_node(a: Expr, b: Expr) -> (e: Expr)
    ensures
        e@ == raised(a@, b@),
{
    node(Operator::Pow, a, b)
}

/// Whether two trees are equal.
pub fn same_expr(a: &Expr, b: &Expr) -> (r: bool)
    ensures
        r == (a@ == b@),
    decreases a,
{
    proof {
        lemma_children(a);
        lemma_children(b);
    }
    match (a, b) {
        (Expr::Number(x), Expr::Number(y)) => *x == *y,
        (Expr::Variable(x), Expr::Variable(y)) => *x == *y,
        (Expr::Function(f), Expr::Function(g)) => {
            if f.value == g.value {
                same_all(&f.next, &g.next)
            } else {
                false
            }
        },
        (Expr::Operator(f), Expr::Operator(g)) => {
            if f.value == g.value {
                same_all(&f.next, &g.next)
            } else {
                false
            }
        },
        (Expr::Identifier(i), Expr::Identifier(j)) => *i == *j,
        _ => false,
    }
}

/// Whether two sequences of trees are equal.
pub fn same_all(v: &Vec<Expr>, w: &Vec<Expr>) -> (r: bool)
    ensures
        r == (terms(v@) == terms(w@)),
    decreases v,
{
    if v.len() != w.len() {
        assert(terms(v@).len() != terms(w@).len());
        return false;
    }
    let mut i: usize = 0;
    while i < v.len()
        invariant
            v.len() == w.len(),
            i <= v.len(),
            forall|j: int| 0 <= j < i ==> v@[j]@ == w@[j]@,
        decreases v.len() - i,
    {
        proof {
            assert(decreases_to!(v => v@));
            assert(decreases_to!(v@ => v@[i as int]));
        }
        if !same_expr(&v[i], &w[i]) {
            assert(terms(v@)[i as int] != terms(w@)[i as int]);
            return false;
        }
        i = i + 1;
    }
    assert(terms(v@) =~= terms(w@));
    true
}

/// A failed prefix fails the whole match.
proof fn lemma_unify_all_prefix(ms: Seq<Term>, ts: Seq<Term>, b: Map<u32, Term>, n: int)
    requires
        ms.len() == ts.len(),
        0 <= n <= ms.len(),
        unify_all(ms.take(n), ts.take(n), b) is None,
    ensures
        unify_all(ms, ts, b) is None,
    decreases ms.len() - n,
{
    if n < ms.len() {
        assert(ms.take(n + 1).drop_last() =~= ms.take(n));
        assert(ts.take(n + 1).drop_last() =~= ts.take(n));
        lemma_unify_all_prefix(ms, ts, b, n + 1);
    } else {
        assert(ms.take(n) =~= ms);
        assert(ts.take(n) =~= ts);
    }
}

/// Matches `matcher` against `target`, recording bindings in `ids`.
fn compare(matcher: &Expr, target: &Expr, ids: &mut HashMap<u32, Expr>) -> (r: bool)
    ensures
        r == unify(matcher@, target@, binds(old(ids)@)) is Some,
        r ==> unify(matcher@, target@, binds(old(ids)@)) == Some(binds(final(ids)@)),
    decreases matcher,
{
    proof {
        lemma_children(matcher);
        lemma_children(target);
    }
    match matcher {
        Expr::Identifier(k) => match ids.get(k) {
            Some(e) => same_expr(e, target),
            None => {
                let ghost before = binds(ids@);
                ids.insert(*k, target.duplicate());
                assert(binds(ids@) =~= before.insert(*k, target@));
                true
            },
        },
        Expr::Number(a) => match target {
            Expr::Number(b) => *a == *b,
            _ => false,
        },
        Expr::Variable(a) => match target {
            Expr::Variable(b) => *a == *b,
            _ => false,
        },
        Expr::Function(f) => match target {
            Expr::Function(g) => {
                if f.value == g.value && f.next.len() == g.next.len() {
                    compare_all(&f.next, &g.next, ids)
                } else {
                    false
                }
            },
            _ => false,
        },
        Expr::Operator(f) => match target {
            Expr::Operator(g) => {
                if f.value == g.value && f.next.len() == g.next.len() {
                    compare_all(&f.next, &g.next, ids)
                } else {
                    false
                }
            },
            _ => false,
        },
    }
}

/// Matches children pairwise, left to right.
fn compare_all(ms: &Vec<Expr>, ts: &Vec<Expr>, ids: &mut HashMap<u32, Expr>) -> (r: bool)
    requires
        ms@.len() == ts@.len(),
    ensures
        r == unify_all(terms(ms@), terms(ts@), binds(old(ids)@)) is Some,
        r ==> unify_all(terms(ms@), terms(ts@), binds(old(ids)@)) == Some(binds(final(ids)@)),
    decreases ms,
{
    let ghost b0 = binds(ids@);
    let ghost tm = terms(ms@);
    let ghost tt = terms(ts@);
    let mut i: usize = 0;
    assert(tm.take(0).len() == 0);
    while i < ms.len()
        invariant
            ms@.len() == ts@.len(),
            i <= ms@.len(),
            tm == terms(ms@),
            tt == terms(ts@),
            b0 == binds(old(ids)@),
            unify_all(tm.take(i as int), tt.take(i as int), b0) == Some(binds(ids@)),
        decreases ms.len() - i,
    {
        proof {
            assert(decreases_to!(ms => ms@));
            assert(decreases_to!(ms@ => ms@[i as int]));
            assert(tm.take(i + 1).drop_last() =~= tm.take(i as int));
            assert(tt.take(i + 1).drop_last() =~= tt.take(i as int));
            assert(tm.take(i + 1).last() == ms@[i as int]@);
            assert(tt.take(i + 1).last() == ts@[i as int]@);
        }
        if !compare(&ms[i], &ts[i], ids) {
            proof {
                lemma_unify_all_prefix(tm, tt, b0, i + 1);
            }
            return false;
        }
        i = i + 1;
    }
    assert(tm.take(ms@.len() as int) =~= tm);
    assert(tt.take(ms@.len() as int) =~= tt);
    true
}

/// The template `tpl` with the bound pattern variables replaced.
fn replace(tpl: &Expr, ids: &HashMap<u32, Expr>) -> (r: Expr)
    ensures
        r@ == subst(tpl@, binds(ids@)),
    decreases tpl,
{
    proof {
        lemma_children(tpl);
    }
    match tpl {
        Expr::Identifier(k) => match ids.get(k) {
            Some(e) => e.duplicate(),
            None => Expr::Identifier(*k),
        },
        Expr::Function(t) => {
            let next = replace_all(&t.next, ids);
            let r = Expr::Function(Tree { value: t.value.clone(), next });
            proof {
                lemma_children(&r);
                assert(r@->Function_1 =~= subst(tpl@, binds(ids@))->Function_1);
            }
            r
        },
        Expr::Operator(t) => {
            let next = replace_all(&t.next, ids);
            let r = Expr::Operator(Tree { value: t.value, next });
            proof {
                lemma_children(&r);
                assert(r@->Operator_1 =~= subst(tpl@, binds(ids@))->Operator_1);
            }
            r
        },
        _ => tpl.duplicate(),
    }
}

fn replace_all(v: &Vec<Expr>, ids: &HashMap<u32, Expr>) -> (r: Vec<Expr>)
    ensures
        r@.len() == v@.len(),
        forall|i: int| 0 <= i < v@.len() ==> r@[i]@ == subst(v@[i]@, binds(ids@)),
    decreases v,
{
    let mut r: Vec<Expr> = Vec::new();
    let mut i: usize = 0;
    while i < v.len()
        invariant
            i <= v@.len(),
            r@.len() == i,
            forall|j: int| 0 <= j < i ==> r@[j]@ == subst(v@[j]@, binds(ids@)),
        decreases v.len() - i,
    {
        proof {
            assert(decreases_to!(v => v@));
            assert(decreases_to!(v@ => v@[i as int]));
        }
        r.push(replace(&v[i], ids));
        i = i + 1;
    }
    r
}

pub open spec fn rules_view(v: Seq<(Expr, Expr)>) -> Seq<(Term, Term)> {
    Seq::new(v.len(), |i: int| (v[i].0@, v[i].1@))
}

fn push_rule(rules: &mut Vec<(Expr, Expr)>, matcher: Expr, replacement: Expr)
    ensures
        rules_view(final(rules)@) == rules_view(old(rules)@).push((matcher@, replacement@)),
{
    rules.push((matcher, replacement));
    assert(rules_view(final(rules)@) =~= rules_view(old(rules)@).push((matcher@, replacement@)));
}

impl Simplifier {
    /// The simplifier with the rule table.
    pub fn new() -> (r: Simplifier)
        ensures
            r@ == rule_table(),
            r.wf(),
    {
        let mut rules: Vec<(Expr, Expr)> = Vec::new();
        assert(rules_view(rules@) =~= Seq::<(Term, Term)>::empty());
        // ordering: x + (y + z) = (x + y) + z
        push_rule(&mut rules, add_node(id_node(0), add_node(id_node(1), id_node(2))), add_node(add_node(id_node(0), id_node(1)), id_node(2)));
        // 0 + x = x
        push_rule(&mut rules, add_node(int_node(0), id_node(0)), id_node(0));
        // x + 0 = x
        push_rule(&mut rules, add_node(id_node(0), int_node(0)), id_node(0));
        // x - x = 0
        push_rule(&mut rules, sub_node(id_node(0), id_node(0)), int_node(0));
        // 0 * x = 0
        push_rule(&mut rules, mul_node(int_node(0), id_node(0)), int_node(0));
        // x * 0 = 0
        push_rule(&mut rules, mul_node(id_node(0), int_node(0)), int_node(0));
        // 1 * x = x
        push_rule(&mut rules, mul_node(int_node(1), id_node(0)), id_node(0));
        // x * 1 = x
        push_rule(&mut rules, mul_node(id_node(0), int_node(1)), id_node(0));
        // x * x = x^2
        push_rule(&mut rules, mul_node(id_node(0), id_node(0)), pow_node(id_node(0), int_node(2)));
        // x + x = 2x
        push_rule(&mut rules, add_node(id_node(0), id_node(0)), mul_node(int_node(2), id_node(0)));
        // x / x = 1
        push_rule(&mut rules, div_node(id_node(0), id_node(0)), int_node(1));
        // x * x^y = x^(y+1)
        push_rule(&mut rules, mul_node(id_node(0), pow_node(id_node(0), id_node(1))), pow_node(id_node(0), add_node(id_node(1), int_node(1))));
        // x^y * x = x^(y+1)
        push_rule(&mut rules, mul_node(pow_node(id_node(0), id_node(1)), id_node(0)), pow_node(id_node(0), add_node(id_node(1), int_node(1))));
        // (x^y)^z = x^(y*z)
        push_rule(&mut rules, pow_node(pow_node(id_node(0), id_node(1)), id_node(2)), pow_node(id_node(0), mul_node(id_node(1), id_node(2))));
        // x * x^-1 = 1
        push_rule(&mut rules, mul_node(id_node(0), pow_node(id_node(0), int_node(-1))), int_node(1));
        // x / y = x * y^-1
        push_rule(&mut rules, div_node(id_node(0), id_node(1)), mul_node(id_node(0), pow_node(id_node(1), int_node(-1))));
        // x + x * y = x * (y + 1), and its mirror images
        push_rule(&mut rules, add_node(id_node(0), mul_node(id_node(0), id_node(1))), mul_node(id_node(0), add_node(id_node(1), int_node(1))));
        push_rule(&mut rules, add_node(id_node(0), mul_node(id_node(1), id_node(0))), mul_node(id_node(0), add_node(id_node(1), int_node(1))));
        push_rule(&mut rules, add_node(mul_node(id_node(0), id_node(1)), id_node(0)), mul_node(id_node(0), add_node(id_node(1), int_node(1))));
        push_rule(&mut rules, add_node(mul_node(id_node(1), id_node(0)), id_node(0)), mul_node(id_node(0), add_node(id_node(1), int_node(1))));
        // x - x * y = x * (y - 1), and its mirror images
        push_rule(&mut rules, sub_node(id_node(0), mul_node(id_node(0), id_node(1))), mul_node(id_node(0), sub_node(id_node(1), int_node(1))));
        push_rule(&mut rules, sub_node(mul_node(id_node(0), id_node(1)), id_node(0)), mul_node(id_node(0), sub_node(id_node(1), int_node(1))));
        push_rule(&mut rules, sub_node(id_node(0), mul_node(id_node(1), id_node(0))), mul_node(id_node(0), sub_node(id_node(1), int_node(1))));
        push_rule(&mut rules, sub_node(mul_node(id_node(1), id_node(0)), id_node(0)), mul_node(id_node(0), sub_node(id_node(1), int_node(1))));
        // x^y * x^z = x^(y+z)
        push_rule(&mut rules, mul_node(pow_node(id_node(0), id_node(1)), pow_node(id_node(0), id_node(2))), pow_node(id_node(0), add_node(id_node(1), id_node(2))));
        // sin(x)^2 + cos(x)^2 = 1
        push_rule(&mut rules, add_node(pow_node(call1("sin", id_node(0)), int_node(2)), pow_node(call1("cos", id_node(0)), int_node(2))), int_node(1));
        // log(e, x) = ln(x)
        push_rule(&mut rules, call2("log", Expr::Variable(String::from_str("e")), id_node(0)), call1("ln", id_node(0)));
        let r = Simplifier { rules };
        assert(r@ =~= rules_view(r.rules@));
        r
    }

    pub open spec fn wf(&self) -> bool {
        self@ == rule_table()
    }

    /// One pass of the rule table over the root of `expr`.
    pub fn simplify_r(&self, engine: &Engine, expr: &Expr) -> (r: (Expr, bool))
        ensures
            (r.0@, r.1) == pass(self@, expr@),
    {
        let mut simplified = expr.duplicate();
        let mut found = false;
        let mut k: usize = 0;
        while k < self.rules.len()
            invariant
                k <= self.rules@.len(),
                (simplified@, found) == pass_upto(self@, expr@, k as nat),
            decreases self.rules.len() - k,
        {
            let mut ids: HashMap<u32, Expr> = HashMap::new();
            assert(binds(ids@) =~= Map::<u32, Term>::empty());
            if compare(&self.rules[k].0, &simplified, &mut ids) {
                simplified = replace(&self.rules[k].1, &ids);
                found = true;
            }
            k = k + 1;
        }
        (simplified, found)
    }

    /// Passes over the rule table until one matches nothing.
    pub fn simplify(&self, engine: &Engine, expr: &Expr) -> (r: Expr)
        ensures
            r@ == simplify_with(self@, expr@, PASS_LIMIT as nat),
            settles(self@, expr@, PASS_LIMIT as nat) ==> !pass(self@, r@).1,
    {
        proof {
            if settles(self@, expr@, PASS_LIMIT as nat) {
                lemma_settled(self@, expr@, PASS_LIMIT as nat);
            }
        }
        let mut current = expr.duplicate();
        let mut passes: u64 = 0;
        while passes < PASS_LIMIT
            invariant
                passes <= PASS_LIMIT,
                settles(self@, expr@, PASS_LIMIT as nat) ==> !pass(
                    self@,
                    simplify_with(self@, expr@, PASS_LIMIT as nat),
                ).1,
                simplify_with(self@, expr@, PASS_LIMIT as nat) == simplify_with(
                    self@,
                    current@,
                    (PASS_LIMIT - passes) as nat,
                ),
            decreases PASS_LIMIT - passes,
        {
            let (next, found) = self.simplify_r(engine, &current);
            if !found {
                return next;
            }
            current = next;
            passes = passes + 1;
        }
        current
    }
}

/// A pass that matches nothing leaves the tree as it was.
proof fn lemma_pass_unchanged(rules: Seq<(Term, Term)>, t: Term, k: nat)
    requires
        !pass_upto(rules, t, k).1,
    ensures
        pass_upto(rules, t, k).0 == t,
    decreases k,
{
    if k > 0 && k <= rules.len() {
        lemma_pass_unchanged(rules, t, (k - 1) as nat);
    }
}

/// Some pass among the first `fuel` ones, starting from `t`, matches nothing.
pub open spec fn settles(rules: Seq<(Term, Term)>, t: Term, fuel: nat) -> bool
    decreases fuel,
{
    fuel > 0 && (!pass(rules, t).1 || settles(rules, pass(rules, t).0, (fuel - 1) as nat))
}

/// When the passes settle within the fuel, no rule matches the result.
pub proof fn lemma_settled(rules: Seq<(Term, Term)>, t: Term, fuel: nat)
    requires
        settles(rules, t, fuel),
    ensures
        !pass(rules, simplify_with(rules, t, fuel)).1,
    decreases fuel,
{
    if !pass(rules, t).1 {
        lemma_pass_unchanged(rules, t, rules.len());
    } else {
        lemma_settled(rules, pass(rules, t).0, (fuel - 1) as nat);
    }
}

/// Simplification is a fixpoint: simplifying its result again gives the same
/// tree, whenever the passes settle within the limit.
pub proof fn lemma_simplify_fixpoint(rules: Seq<(Term, Term)>, t: Term)
    requires
        settles(rules, t, PASS_LIMIT as nat),
    ensures
        !pass(rules, simplify_with(rules, t, PASS_LIMIT as nat)).1,
        simplify_with(rules, simplify_with(rules, t, PASS_LIMIT as nat), PASS_LIMIT as nat)
            == simplify_with(rules, t, PASS_LIMIT as nat),
{
    lemma_settled(rules, t, PASS_LIMIT as nat);
    let s = simplify_with(rules, t, PASS_LIMIT as nat);
    lemma_pass_unchanged(rules, s, rules.len());
}

impl Expr {
    /// Rewrites the root of the tree with the engine's rule table until no
    /// rule matches.
    pub fn simplify(&self, engine: &Engine) -> (r: Expr)
        ensures
            r@ == simplify_with(engine.simplifier@, self@, PASS_LIMIT as nat),
            settles(engine.simplifier@, self@, PASS_LIMIT as nat) ==> !pass(
                engine.simplifier@,
                r@,
            ).1,
    {
        engine.simplifier.simplify(engine, self)
    }
}

} // verus!
