use vstd::prelude::*;

use crate::expr::{Expr, Term, lemma_children, terms};
use crate::number::Number;
use crate::types::{Operator, char_of, precedence_of};
use vstd::string::StringExecFns;

verus! {

/// Which operands of a binary operator need brackets.
pub enum Ordering {
    Left,
    Right,
    Both,
    Neither,
}

/// The rank of a leaf: nothing binds tighter.
pub const LEAF: u8 = 255;

/// The rank of a negative value or a negation: it is bracketed wherever it
/// stands as an operand.
pub const SIGNED: u8 = 1;

pub open spec fn ordering_of(left: u8, oper: u8, right: u8) -> Ordering {
    if left >= oper && oper <= right {
        Ordering::Neither
    } else if left >= oper {
        Ordering::Right
    } else if left < oper && oper <= right {
        Ordering::Left
    } else {
        Ordering::Both
    }
}

impl Ordering {
    /// An operand is bracketed when it binds looser than the operator.
    pub fn new(left: u8, oper: u8, right: u8) -> (r: Self)
        ensures
            r == ordering_of(left, oper, right),
    {
        if left >= oper && oper <= right {
            Self::Neither
        } else if left >= oper {
            Self::Right
        } else if left < oper && oper <= right {
            Self::Left
        } else {
            Self::Both
        }
    }
}

pub open spec fn digit_char(d: nat) -> char {
    if d == 0 {
        '0'
    } else if d == 1 {
        '1'
    } else if d == 2 {
        '2'
    } else if d == 3 {
        '3'
    } else if d == 4 {
        '4'
    } else if d == 5 {
        '5'
    } else if d == 6 {
        '6'
    } else if d == 7 {
        '7'
    } else if d == 8 {
        '8'
    } else {
        '9'
    }
}

/// The decimal digits of `n`.
pub open spec fn digits(n: nat) -> Seq<char>
    decreases n,
{
    if n < 10 {
        seq![digit_char(n)]
    } else {
        digits(n / 10).push(digit_char(n % 10))
    }
}

/// `n` in decimal, with a leading `-` when negative.
pub open spec fn decimal(n: int) -> Seq<char> {
    if n < 0 {
        seq!['-'] + digits((-n) as nat)
    } else {
        digits(n as nat)
    }
}

/// A number as text: an integer in decimal, a fraction as `(n/d)`.
pub open spec fn number_text(n: Number) -> Seq<char> {
    if n.den() == 1 {
        decimal(n.num())
    } else {
        seq!['('] + decimal(n.num()) + seq!['/'] + decimal(n.den()) + seq![')']
    }
}

pub open spec fn number_rank(n: Number) -> u8 {
    if n.den() == 1 && n.num() < 0 {
        SIGNED
    } else {
        LEAF
    }
}

pub open spec fn bracket(s: Seq<char>, yes: bool) -> Seq<char> {
    if yes {
        seq!['('] + s + seq![')']
    } else {
        s
    }
}

pub open spec fn rank_of(op: Operator) -> u8 {
    match precedence_of(op) {
        Some(p) => p,
        None => 0,
    }
}

/// The infix text of a term and the rank of its outermost operator.
///
/// An operand is bracketed when it binds looser than its operator, and
/// also when it binds as tight on the side against which the operator
/// groups (the right of `-`, the left of `^`), so that the text parses
/// back to the same tree.
pub open spec fn infix_text(t: Term) -> (Seq<char>, u8)
    decreases t,
{
    match t {
        Term::Number(n) => (number_text(n), number_rank(n)),
        Term::Variable(v) => (v, LEAF),
        Term::Identifier(i) => (seq!['i', ':'] + digits(i as nat), LEAF),
        Term::Function(name, args) => (name + seq!['('] + join_infix(args) + seq![')'], LEAF),
        Term::Operator(op, cs) => if cs.len() == 1 {
            let inner = infix_text(cs[0]);
            if op == Operator::Neg {
                (seq!['-'] + bracket(inner.0, inner.1 < 5), SIGNED)
            } else {
                inner
            }
        } else if cs.len() == 2 {
            let a = infix_text(cs[0]);
            let b = infix_text(cs[1]);
            let c = rank_of(op);
            let left = if op == Operator::Pow && a.1 == c {
                0u8
            } else {
                a.1
            };
            let right = if op != Operator::Pow && b.1 == c {
                0u8
            } else {
                b.1
            };
            let (lb, rb) = match ordering_of(left, c, right) {
                Ordering::Neither => (false, false),
                Ordering::Right => (false, true),
                Ordering::Left => (true, false),
                Ordering::Both => (true, true),
            };
            (bracket(a.0, lb) + seq![char_of(op)] + bracket(b.0, rb), c)
        } else {
            (seq![], LEAF)
        },
    }
}

/// The arguments of a call, separated by `, `; a negative one is
/// bracketed, since a sign after a comma would read as subtraction.
pub open spec fn join_infix(args: Seq<Term>) -> Seq<char>
    decreases args,
{
    if args.len() == 0 {
        seq![]
    } else if args.len() == 1 {
        bracket(infix_text(args[0]).0, infix_text(args[0]).1 == SIGNED)
    } else {
        join_infix(args.drop_last()) + seq![',', ' '] + bracket(
            infix_text(args.last()).0,
            infix_text(args.last()).1 == SIGNED,
        )
    }
}

fn digit_of(d: u64) -> (c: char)
    requires
        d < 10,
    ensures
        c == digit_char(d as nat),
{
    if d == 0 {
        '0'
    } else if d == 1 {
        '1'
    } else if d == 2 {
        '2'
    } else if d == 3 {
        '3'
    } else if d == 4 {
        '4'
    } else if d == 5 {
        '5'
    } else if d == 6 {
        '6'
    } else if d == 7 {
        '7'
    } else if d == 8 {
        '8'
    } else {
        '9'
    }
}

fn push_digits(s: &mut String, n: u64)
    ensures
        final(s)@ == old(s)@ + digits(n as nat),
    decreases n,
{
    if n >= 10 {
        push_digits(s, n / 10);
    }
    s.push(digit_of(n % 10));
    assert(s@ =~= old(s)@ + digits(n as nat));
}

fn push_decimal(s: &mut String, n: i64)
    ensures
        final(s)@ == old(s)@ + decimal(n as int),
{
    if n < 0 {
        s.push('-');
        let m: u64 = (-(n as i128)) as u64;
        push_digits(s, m);
        assert(s@ =~= old(s)@ + decimal(n as int));
    } else {
        push_digits(s, n as u64);
    }
}

fn push_number(s: &mut String, n: Number)
    ensures
        final(s)@ == old(s)@ + number_text(n),
{
    let Number::Rational(num, den) = n;
    if den == 1 {
        push_decimal(s, num);
    } else {
        s.push('(');
        push_decimal(s, num);
        s.push('/');
        push_decimal(s, den);
        s.push(')');
        assert(s@ =~= old(s)@ + number_text(n));
    }
}

fn push_bracketed(s: &mut String, inner: &String, yes: bool)
    ensures
        final(s)@ == old(s)@ + bracket(inner@, yes),
{
    if yes {
        s.push('(');
        s.append(inner.as_str());
        s.push(')');
        assert(s@ =~= old(s)@ + bracket(inner@, yes));
    } else {
        s.append(inner.as_str());
    }
}

fn rank_exec(op: Operator) -> (r: u8)
    ensures
        r == rank_of(op),
{
    match op.precedence() {
        Ok(p) => p,
        Err(_) => 0,
    }
}

fn tree_to_infix_recurse(expr: &Expr) -> (r: (String, u8))
    ensures
        (r.0@, r.1) == infix_text(expr@),
    decreases expr,
{
    proof {
        lemma_children(expr);
    }
    match expr {
        Expr::Number(n) => {
            let mut s = String::new();
            push_number(&mut s, *n);
            assert(s@ =~= number_text(*n));
            let Number::Rational(num, den) = *n;
            (s, if den == 1 && num < 0 { SIGNED } else { LEAF })
        },
        Expr::Variable(v) => (v.clone(), LEAF),
        Expr::Identifier(i) => {
            let mut s = String::new();
            s.push('i');
            s.push(':');
            push_digits(&mut s, *i as u64);
            assert(s@ =~= seq!['i', ':'] + digits(*i as nat));
            (s, LEAF)
        },
        Expr::Function(f) => {
            let mut s = f.value.clone();
            s.push('(');
            let ghost start = s@;
            let mut k: usize = 0;
            let ghost args = expr@->Function_1;
            assert(args.take(0) =~= Seq::<Term>::empty());
            while k < f.next.len()
                invariant
                    expr is Function,
                    *f == expr->Function_0,
                    args == expr@->Function_1,
                    args.len() == f.next@.len(),
                    forall|j: int| 0 <= j < args.len() ==> args[j] == f.next@[j]@,
                    k <= f.next@.len(),
                    s@ == start + join_infix(args.take(k as int)),
                decreases f.next.len() - k,
            {
                proof {
                    assert(decreases_to!(f.next => f.next@));
                    assert(decreases_to!(f.next@ => f.next@[k as int]));
                    assert(args.take(k + 1).drop_last() =~= args.take(k as int));
                    assert(args.take(k + 1).last() == f.next@[k as int]@);
                }
                let (a, rank) = tree_to_infix_recurse(&f.next[k]);
                if k > 0 {
                    s.push(',');
                    s.push(' ');
                }
                push_bracketed(&mut s, &a, rank == SIGNED);
                proof {
                    if k == 0 {
                        assert(args.take(1) =~= seq![args[0]]);
                        assert(s@ =~= start + join_infix(args.take(1)));
                    } else {
                        assert(s@ =~= start + join_infix(args.take(k + 1)));
                    }
                }
                k = k + 1;
            }
            assert(args.take(f.next@.len() as int) =~= args);
            s.push(')');
            assert(s@ =~= f.value@ + seq!['('] + join_infix(args) + seq![')']);
            (s, LEAF)
        },
        Expr::Operator(o) => {
            if o.next.len() == 1 {
                proof {
                    assert(decreases_to!(o.next => o.next@));
                    assert(decreases_to!(o.next@ => o.next@[0]));
                }
                let inner = tree_to_infix_recurse(&o.next[0]);
                if o.value == Operator::Neg {
                    let mut s = String::new();
                    s.push('-');
                    push_bracketed(&mut s, &inner.0, inner.1 < 5);
                    assert(s@ =~= seq!['-'] + bracket(inner.0@, inner.1 < 5));
                    (s, SIGNED)
                } else {
                    inner
                }
            } else if o.next.len() == 2 {
                proof {
                    assert(decreases_to!(o.next => o.next@));
                    assert(decreases_to!(o.next@ => o.next@[0]));
                    assert(decreases_to!(o.next@ => o.next@[1]));
                }
                let a = tree_to_infix_recurse(&o.next[0]);
                let b = tree_to_infix_recurse(&o.next[1]);
                let c = rank_exec(o.value);
                let left = if o.value == Operator::Pow && a.1 == c {
                    0u8
                } else {
                    a.1
                };
                let right = if o.value != Operator::Pow && b.1 == c {
                    0u8
                } else {
                    b.1
                };
                let (lb, rb) = match Ordering::new(left, c, right) {
                    Ordering::Neither => (false, false),
                    Ordering::Right => (false, true),
                    Ordering::Left => (true, false),
                    Ordering::Both => (true, true),
                };
                let mut s = String::new();
                push_bracketed(&mut s, &a.0, lb);
                s.push(o.value.to());
                push_bracketed(&mut s, &b.0, rb);
                assert(s@ =~= bracket(a.0@, lb) + seq![char_of(o.value)] + bracket(b.0@, rb));
                (s, c)
            } else {
                (String::new(), LEAF)
            }
        },
    }
}

/// The infix text of a tree (see `infix_text`).
pub fn tree_to_infix(expr: &Expr) -> (r: String)
    ensures
        r@ == infix_text(expr@).0,
{
    tree_to_infix_recurse(expr).0
}

impl Expr {
    pub fn print(&self) -> (r: String)
        ensures
            r@ == infix_text(self@).0,
    {
        tree_to_infix(self)
    }
}

pub open spec fn bracket_latex(s: Seq<char>, yes: bool) -> Seq<char> {
    if yes {
        "\\left("@ + s + "\\right)"@
    } else {
        s
    }
}

/// The LaTeX text of a term and the rank of its outermost operator;
/// brackets as in `infix_text`, quotients as `\frac`, exponents in braces.
pub open spec fn latex_text(t: Term) -> (Seq<char>, u8)
    decreases t,
{
    match t {
        Term::Number(n) => (number_text(n), number_rank(n)),
        Term::Variable(v) => (v, LEAF),
        Term::Identifier(i) => (seq!['i', ':'] + digits(i as nat), LEAF),
        Term::Function(name, args) => (
            seq!['\\'] + name + "\\left("@ + join_latex(args) + "\\right)"@,
            LEAF,
        ),
        Term::Operator(op, cs) => if cs.len() == 1 {
            let inner = latex_text(cs[0]);
            if op == Operator::Neg {
                (seq!['-'] + bracket_latex(inner.0, inner.1 < 5), SIGNED)
            } else {
                inner
            }
        } else if cs.len() == 2 {
            let a = latex_text(cs[0]);
            let b = latex_text(cs[1]);
            let c = rank_of(op);
            let left = if op == Operator::Pow && a.1 == c {
                0u8
            } else {
                a.1
            };
            let right = if op != Operator::Pow && b.1 == c {
                0u8
            } else {
                b.1
            };
            let (lb, rb) = match ordering_of(left, c, right) {
                Ordering::Neither => (false, false),
                Ordering::Right => (false, true),
                Ordering::Left => (true, false),
                Ordering::Both => (true, true),
            };
            if op == Operator::Div {
                ("\\frac{"@ + a.0 + "}{"@ + b.0 + "}"@, LEAF)
            } else if op == Operator::Pow {
                (bracket_latex(a.0, lb) + "^{"@ + b.0 + "}"@, c)
            } else if op == Operator::Mul {
                (bracket_latex(a.0, lb) + "\\cdot "@ + bracket_latex(b.0, rb), c)
            } else {
                (bracket_latex(a.0, lb) + seq![char_of(op)] + bracket_latex(b.0, rb), c)
            }
        } else {
            (seq![], LEAF)
        },
    }
}

pub open spec fn join_latex(args: Seq<Term>) -> Seq<char>
    decreases args,
{
    if args.len() == 0 {
        seq![]
    } else if args.len() == 1 {
        latex_text(args[0]).0
    } else {
        join_latex(args.drop_last()) + seq![',', ' '] + latex_text(args.last()).0
    }
}

fn push_bracketed_latex(s: &mut String, inner: &String, yes: bool)
    ensures
        final(s)@ == old(s)@ + bracket_latex(inner@, yes),
{
    if yes {
        s.append("\\left(");
        s.append(inner.as_str());
        s.append("\\right)");
        assert(s@ =~= old(s)@ + bracket_latex(inner@, yes));
    } else {
        s.append(inner.as_str());
    }
}

fn tree_to_latex_recurse(expr: &Expr) -> (r: (String, u8))
    ensures
        (r.0@, r.1) == latex_text(expr@),
    decreases expr,
{
    proof {
        lemma_children(expr);
    }
    match expr {
        Expr::Number(n) => {
            let mut s = String::new();
            push_number(&mut s, *n);
            assert(s@ =~= number_text(*n));
            let Number::Rational(num, den) = *n;
            (s, if den == 1 && num < 0 { SIGNED } else { LEAF })
        },
        Expr::Variable(v) => (v.clone(), LEAF),
        Expr::Identifier(i) => {
            let mut s = String::new();
            s.push('i');
            s.push(':');
            push_digits(&mut s, *i as u64);
            assert(s@ =~= seq!['i', ':'] + digits(*i as nat));
            (s, LEAF)
        },
        Expr::Function(f) => {
            let mut s = String::new();
            s.push('\\');
            s.append(f.value.as_str());
            s.append("\\left(");
            let ghost start = s@;
            let mut k: usize = 0;
            let ghost args = expr@->Function_1;
            assert(args.take(0) =~= Seq::<Term>::empty());
            while k < f.next.len()
                invariant
                    expr is Function,
                    *f == expr->Function_0,
                    args == expr@->Function_1,
                    args.len() == f.next@.len(),
                    forall|j: int| 0 <= j < args.len() ==> args[j] == f.next@[j]@,
                    k <= f.next@.len(),
                    s@ == start + join_latex(args.take(k as int)),
                decreases f.next.len() - k,
            {
                proof {
                    assert(decreases_to!(f.next => f.next@));
                    assert(decreases_to!(f.next@ => f.next@[k as int]));
                    assert(args.take(k + 1).drop_last() =~= args.take(k as int));
                    assert(args.take(k + 1).last() == f.next@[k as int]@);
                }
                let (a, _) = tree_to_latex_recurse(&f.next[k]);
                if k > 0 {
                    s.push(',');
                    s.push(' ');
                }
                s.append(a.as_str());
                proof {
                    if k == 0 {
                        assert(args.take(1) =~= seq![args[0]]);
                        assert(s@ =~= start + join_latex(args.take(1)));
                    } else {
                        assert(s@ =~= start + join_latex(args.take(k + 1)));
                    }
                }
                k = k + 1;
            }
            assert(args.take(f.next@.len() as int) =~= args);
            s.append("\\right)");
            assert(s@ =~= seq!['\\'] + f.value@ + "\\left("@ + join_latex(args) + "\\right)"@);
            (s, LEAF)
        },
        Expr::Operator(o) => {
            if o.next.len() == 1 {
                proof {
                    assert(decreases_to!(o.next => o.next@));
                    assert(decreases_to!(o.next@ => o.next@[0]));
                }
                let inner = tree_to_latex_recurse(&o.next[0]);
                if o.value == Operator::Neg {
                    let mut s = String::new();
                    s.push('-');
                    push_bracketed_latex(&mut s, &inner.0, inner.1 < 5);
                    assert(s@ =~= seq!['-'] + bracket_latex(inner.0@, inner.1 < 5));
                    (s, SIGNED)
                } else {
                    inner
                }
            } else if o.next.len() == 2 {
                proof {
                    assert(decreases_to!(o.next => o.next@));
                    assert(decreases_to!(o.next@ => o.next@[0]));
                    assert(decreases_to!(o.next@ => o.next@[1]));
                }
                let a = tree_to_latex_recurse(&o.next[0]);
                let b = tree_to_latex_recurse(&o.next[1]);
                let c = rank_exec(o.value);
                let left = if o.value == Operator::Pow && a.1 == c {
                    0u8
                } else {
                    a.1
                };
                let right = if o.value != Operator::Pow && b.1 == c {
                    0u8
                } else {
                    b.1
                };
                let (lb, rb) = match Ordering::new(left, c, right) {
                    Ordering::Neither => (false, false),
                    Ordering::Right => (false, true),
                    Ordering::Left => (true, false),
                    Ordering::Both => (true, true),
                };
                let mut s = String::new();
                if o.value == Operator::Div {
                    s.append("\\frac{");
                    s.append(a.0.as_str());
                    s.append("}{");
                    s.append(b.0.as_str());
                    s.append("}");
                    assert(s@ =~= "\\frac{"@ + a.0@ + "}{"@ + b.0@ + "}"@);
                    (s, LEAF)
                } else if o.value == Operator::Pow {
                    push_bracketed_latex(&mut s, &a.0, lb);
                    s.append("^{");
                    s.append(b.0.as_str());
                    s.append("}");
                    assert(s@ =~= bracket_latex(a.0@, lb) + "^{"@ + b.0@ + "}"@);
                    (s, c)
                } else if o.value == Operator::Mul {
                    push_bracketed_latex(&mut s, &a.0, lb);
                    s.append("\\cdot ");
                    push_bracketed_latex(&mut s, &b.0, rb);
                    assert(s@ =~= bracket_latex(a.0@, lb) + "\\cdot "@ + bracket_latex(b.0@, rb));
                    (s, c)
                } else {
                    push_bracketed_latex(&mut s, &a.0, lb);
                    s.push(o.value.to());
                    push_bracketed_latex(&mut s, &b.0, rb);
                    assert(s@ =~= bracket_latex(a.0@, lb) + seq![char_of(o.value)] + bracket_latex(
                        b.0@,
                        rb,
                    ));
                    (s, c)
                }
            } else {
                (String::new(), LEAF)
            }
        },
    }
}

/// The LaTeX text of a tree (see `latex_text`).
pub fn tree_to_latex(expr: &Expr) -> (r: String)
    ensures
        r@ == latex_text(expr@).0,
{
    tree_to_latex_recurse(expr).0
}

/// A structural rendering of a term, for tracing.
pub open spec fn debug_text(t: Term) -> Seq<char>
    decreases t,
{
    match t {
        Term::Number(n) => number_text(n),
        Term::Variable(v) => v,
        Term::Identifier(i) => seq!['\\'] + digits(i as nat) + seq!['\\'],
        Term::Function(name, args) => name + seq!['('] + join_debug(args) + seq![')'],
        Term::Operator(op, cs) => if cs.len() == 1 {
            seq![if op == Operator::Neg { '-' } else { '+' }, '('] + debug_text(cs[0]) + seq![')']
        } else if cs.len() == 2 {
            seq![char_of(op)] + " -> [ "@ + debug_text(cs[0]) + seq![',', ' '] + debug_text(cs[1])
                + " ]"@
        } else {
            seq![]
        },
    }
}

pub open spec fn join_debug(args: Seq<Term>) -> Seq<char>
    decreases args,
{
    if args.len() == 0 {
        seq![]
    } else if args.len() == 1 {
        debug_text(args[0])
    } else {
        join_debug(args.drop_last()) + seq![',', ' '] + debug_text(args.last())
    }
}

fn debug_recurse(expr: &Expr) -> (r: String)
    ensures
        r@ == debug_text(expr@),
    decreases expr,
{
    proof {
        lemma_children(expr);
    }
    match expr {
        Expr::Number(n) => {
            let mut s = String::new();
            push_number(&mut s, *n);
            assert(s@ =~= number_text(*n));
            s
        },
        Expr::Variable(v) => v.clone(),
        Expr::Identifier(i) => {
            let mut s = String::new();
            s.push('\\');
            push_digits(&mut s, *i as u64);
            s.push('\\');
            assert(s@ =~= seq!['\\'] + digits(*i as nat) + seq!['\\']);
            s
        },
        Expr::Function(f) => {
            let mut s = f.value.clone();
            s.push('(');
            let ghost start = s@;
            let mut k: usize = 0;
            let ghost args = expr@->Function_1;
            assert(args.take(0) =~= Seq::<Term>::empty());
            while k < f.next.len()
                invariant
                    expr is Function,
                    *f == expr->Function_0,
                    args == expr@->Function_1,
                    args.len() == f.next@.len(),
                    forall|j: int| 0 <= j < args.len() ==> args[j] == f.next@[j]@,
                    k <= f.next@.len(),
                    s@ == start + join_debug(args.take(k as int)),
                decreases f.next.len() - k,
            {
                proof {
                    assert(decreases_to!(f.next => f.next@));
                    assert(decreases_to!(f.next@ => f.next@[k as int]));
                    assert(args.take(k + 1).drop_last() =~= args.take(k as int));
                    assert(args.take(k + 1).last() == f.next@[k as int]@);
                }
                let a = debug_recurse(&f.next[k]);
                if k > 0 {
                    s.push(',');
                    s.push(' ');
                }
                s.append(a.as_str());
                proof {
                    if k == 0 {
                        assert(args.take(1) =~= seq![args[0]]);
                        assert(s@ =~= start + join_debug(args.take(1)));
                    } else {
                        assert(s@ =~= start + join_debug(args.take(k + 1)));
                    }
                }
                k = k + 1;
            }
            assert(args.take(f.next@.len() as int) =~= args);
            s.push(')');
            assert(s@ =~= f.value@ + seq!['('] + join_debug(args) + seq![')']);
            s
        },
        Expr::Operator(o) => {
            if o.next.len() == 1 {
                proof {
                    assert(decreases_to!(o.next => o.next@));
                    assert(decreases_to!(o.next@ => o.next@[0]));
                }
                let inner = debug_recurse(&o.next[0]);
                let mut s = String::new();
                s.push(if o.value == Operator::Neg { '-' } else { '+' });
                s.push('(');
                s.append(inner.as_str());
                s.push(')');
                assert(s@ =~= seq![if o.value == Operator::Neg { '-' } else { '+' }, '('] + inner@
                    + seq![')']);
                s
            } else if o.next.len() == 2 {
                proof {
                    assert(decreases_to!(o.next => o.next@));
                    assert(decreases_to!(o.next@ => o.next@[0]));
                    assert(decreases_to!(o.next@ => o.next@[1]));
                }
                let a = debug_recurse(&o.next[0]);
                let b = debug_recurse(&o.next[1]);
                let mut s = String::new();
                s.push(o.value.to());
                s.append(" -> [ ");
                s.append(a.as_str());
                s.push(',');
                s.push(' ');
                s.append(b.as_str());
                s.append(" ]");
                assert(s@ =~= seq![char_of(o.value)] + " -> [ "@ + a@ + seq![',', ' '] + b@
                    + " ]"@);
                s
            } else {
                String::new()
            }
        },
    }
}

impl Expr {
    pub fn print_latex(&self) -> (r: String)
        ensures
            r@ == latex_text(self@).0,
    {
        tree_to_latex(self)
    }

    pub fn print_debug(&self) -> (r: String)
        ensures
            r@ == debug_text(self@),
    {
        debug_recurse(self)
    }
}

pub open spec fn postfix_symbol(op: Operator) -> char {
    if op == Operator::Neg {
        '-'
    } else {
        char_of(op)
    }
}

/// The postfix text of a term: operands before their operator, each token
/// followed by a space inside a node; a call ends with `name()`.
pub open spec fn postfix_text(t: Term) -> Seq<char>
    decreases t,
{
    match t {
        Term::Number(n) => number_text(n),
        Term::Variable(v) => v,
        Term::Identifier(i) => seq!['i', ':'] + digits(i as nat),
        Term::Function(name, args) => operands_text(args) + name + seq!['(', ')'],
        Term::Operator(op, cs) => operands_text(cs) + seq![postfix_symbol(op)],
    }
}

/// The postfix texts of the operands, each followed by a space.
pub open spec fn operands_text(cs: Seq<Term>) -> Seq<char>
    decreases cs,
{
    if cs.len() == 0 {
        seq![]
    } else {
        operands_text(cs.drop_last()) + postfix_text(cs.last()) + seq![' ']
    }
}

fn push_operands(s: &mut String, v: &Vec<Expr>)
    ensures
        final(s)@ == old(s)@ + operands_text(terms(v@)),
    decreases v,
{
    let ghost start = s@;
    let ghost all = terms(v@);
    let mut k: usize = 0;
    assert(all.take(0) =~= Seq::<Term>::empty());
    assert(s@ =~= start + operands_text(all.take(0)));
    while k < v.len()
        invariant
            start == old(s)@,
            all == terms(v@),
            k <= v@.len(),
            s@ == start + operands_text(all.take(k as int)),
        decreases v.len() - k,
    {
        proof {
            assert(decreases_to!(v => v@));
            assert(decreases_to!(v@ => v@[k as int]));
            assert(all.take(k + 1).drop_last() =~= all.take(k as int));
            assert(all.take(k + 1).last() == v@[k as int]@);
        }
        let a = postfix_recurse(&v[k]);
        s.append(a.as_str());
        s.push(' ');
        assert(s@ =~= start + operands_text(all.take(k + 1)));
        k = k + 1;
    }
    assert(all.take(v@.len() as int) =~= all);
}

fn postfix_recurse(expr: &Expr) -> (r: String)
    ensures
        r@ == postfix_text(expr@),
    decreases expr,
{
    proof {
        lemma_children(expr);
    }
    match expr {
        Expr::Number(n) => {
            let mut s = String::new();
            push_number(&mut s, *n);
            assert(s@ =~= number_text(*n));
            s
        },
        Expr::Variable(v) => v.clone(),
        Expr::Identifier(i) => {
            let mut s = String::new();
            s.push('i');
            s.push(':');
            push_digits(&mut s, *i as u64);
            assert(s@ =~= seq!['i', ':'] + digits(*i as nat));
            s
        },
        Expr::Function(f) => {
            let mut s = String::new();
            push_operands(&mut s, &f.next);
            s.append(f.value.as_str());
            s.push('(');
            s.push(')');
            assert(s@ =~= operands_text(terms(f.next@)) + f.value@ + seq!['(', ')']);
            s
        },
        Expr::Operator(o) => {
            let mut s = String::new();
            push_operands(&mut s, &o.next);
            let c = if o.value == Operator::Neg {
                '-'
            } else {
                o.value.to()
            };
            s.push(c);
            assert(s@ =~= operands_text(terms(o.next@)) + seq![postfix_symbol(o.value)]);
            s
        },
    }
}

impl Expr {
    pub fn print_postfix(&self) -> (r: String)
        ensures
            r@ == postfix_text(self@),
    {
        postfix_recurse(self)
    }
}

} // verus!
