use vstd::prelude::*;

use crate::engine::{Engine, FunctionEntry, arity_in};
use crate::expr::{
    Expr, Symbol, Term, Token, Tree, binary, lemma_children, neg_of, node, result_view, terms, tokens,
};
use crate::number::{Number, number_of};
pub use crate::text::split_keep;
use crate::text::{clean, clean_input, piece_views, segments, split_segments};
use crate::types::{Operator, SymErr, is_unary, operator_of, precedence_of};
use vstd::string::{StrSliceExecFns, StringExecFns};

verus! {

/// Whether a `+` or `-` at piece `i` is a sign rather than a binary operator:
/// it is the first piece, or `(`, `+` or `-` stands before it.
pub open spec fn sign_position(p: Seq<Seq<char>>, i: int) -> bool {
    i == 0 || p[i - 1] == seq!['('] || p[i - 1] == seq!['-'] || p[i - 1] == seq!['+']
}

/// The token that piece `i` of `p` stands for.
pub open spec fn classify(p: Seq<Seq<char>>, i: int) -> Result<Token, SymErr> {
    let s = p[i];
    match number_of(s) {
        Ok(n) => Ok(Token::Number(n)),
        Err(_) => if s == seq![','] {
            Ok(Token::Comma)
        } else if s.len() > 0 && operator_of(s[0]) is Some {
            let op = operator_of(s[0])->0;
            let sign = sign_position(p, i);
            if sign && op == Operator::Add {
                Ok(Token::Operator(Operator::Pos))
            } else if sign && op == Operator::Sub {
                Ok(Token::Operator(Operator::Neg))
            } else if sign && op != Operator::LPa && op != Operator::RPa {
                Err(SymErr::InvalidSign)
            } else {
                Ok(Token::Operator(op))
            }
        } else {
            Ok(Token::Variable(s))
        },
    }
}

/// The tokens of the first `n` segments; the first failing one decides.
pub open spec fn tokenize(p: Seq<Seq<char>>, n: nat) -> Result<Seq<Token>, SymErr>
    decreases n,
{
    if n == 0 || n > p.len() {
        Ok(Seq::empty())
    } else {
        match tokenize(p, (n - 1) as nat) {
            Err(x) => Err(x),
            Ok(ts) => match classify(p, n - 1) {
                Err(x) => Err(x),
                Ok(t) => Ok(ts.push(t)),
            },
        }
    }
}

/// The infix tokens of an input string.
pub open spec fn infix_of(s: Seq<char>) -> Result<Seq<Token>, SymErr> {
    tokenize(segments(clean(s)), segments(clean(s)).len())
}

pub open spec fn symbols_view(r: Result<Vec<Symbol>, SymErr>) -> Result<Seq<Token>, SymErr> {
    match r {
        Ok(v) => Ok(tokens(v@)),
        Err(x) => Err(x),
    }
}

pub open spec fn rank(op: Operator) -> int {
    match precedence_of(op) {
        Some(p) => p as int,
        None => 0,
    }
}

/// Whether `top`, waiting on the stack, is output before `op` is pushed:
/// it binds tighter, or as tight and `op` groups to the left. A sign has no
/// left operand, so it outputs nothing.
pub open spec fn yields(top: Operator, op: Operator) -> bool {
    &&& !is_unary(op)
    &&& top != Operator::LPa
    &&& top != Operator::RPa
    &&& op != Operator::LPa
    &&& op != Operator::RPa
    &&& (rank(top) > rank(op) || (rank(top) == rank(op) && op != Operator::Pow))
}

/// Moves the operators that yield to `op` from the stack to the output.
pub open spec fn settle(out: Seq<Token>, stack: Seq<Token>, op: Operator) -> (
    Seq<Token>,
    Seq<Token>,
)
    decreases stack.len(),
{
    if stack.len() > 0 && stack.last() is Operator && yields(stack.last()->Operator_0, op) {
        settle(out.push(stack.last()), stack.drop_last(), op)
    } else {
        (out, stack)
    }
}

/// Handles `)`: outputs operators down to the matching `(`, drops it, and
/// outputs the function whose arguments it opened, if any.
pub open spec fn close(out: Seq<Token>, stack: Seq<Token>) -> Option<(Seq<Token>, Seq<Token>)>
    decreases stack.len(),
{
    if stack.len() == 0 {
        None
    } else if stack.last() == Token::Operator(Operator::LPa) {
        let s = stack.drop_last();
        if s.len() > 0 && s.last() is Function {
            Some((out.push(s.last()), s.drop_last()))
        } else {
            Some((out, s))
        }
    } else {
        close(out.push(stack.last()), stack.drop_last())
    }
}

/// Handles a comma: outputs operators down to the enclosing `(`, which stays.
pub open spec fn to_paren(out: Seq<Token>, stack: Seq<Token>) -> Option<(Seq<Token>, Seq<Token>)>
    decreases stack.len(),
{
    if stack.len() == 0 {
        None
    } else if stack.last() == Token::Operator(Operator::LPa) {
        Some((out, stack))
    } else {
        to_paren(out.push(stack.last()), stack.drop_last())
    }
}

/// The state of the conversion: output, operator stack, and whether the
/// last token closed an operand.
pub struct State {
    pub out: Seq<Token>,
    pub stack: Seq<Token>,
    pub operand: bool,
}

pub open spec fn with_operator(st: State, op: Operator) -> State {
    let (o, s) = settle(st.out, st.stack, op);
    State { out: o, stack: s.push(Token::Operator(op)), operand: false }
}

/// One token of the conversion to postfix.
pub open spec fn step(ts: Seq<Token>, i: int, st: State) -> Result<State, SymErr> {
    let t = ts[i];
    match t {
        Token::Number(_) => Ok(State { out: st.out.push(t), stack: st.stack, operand: true }),
        Token::Variable(name) => if i + 1 < ts.len() && ts[i + 1] == Token::Operator(Operator::LPa) {
            Ok(State { out: st.out, stack: st.stack.push(Token::Function(name)), operand: false })
        } else {
            Ok(State { out: st.out.push(t), stack: st.stack, operand: true })
        },
        Token::Function(_) => Ok(State { out: st.out, stack: st.stack.push(t), operand: false }),
        Token::Comma => match to_paren(st.out, st.stack) {
            None => Err(SymErr::ParenthesesMismatch),
            Some((o, s)) => Ok(State { out: o, stack: s, operand: false }),
        },
        Token::Operator(op) => if op == Operator::LPa {
            let st2 = if st.operand {
                with_operator(st, Operator::Mul)
            } else {
                st
            };
            Ok(State { out: st2.out, stack: st2.stack.push(t), operand: false })
        } else if op == Operator::RPa {
            match close(st.out, st.stack) {
                None => Err(SymErr::ParenthesesMismatch),
                Some((o, s)) => Ok(State { out: o, stack: s, operand: true }),
            }
        } else {
            Ok(with_operator(st, op))
        },
    }
}

/// The state after the first `n` tokens.
pub open spec fn run(ts: Seq<Token>, n: nat) -> Result<State, SymErr>
    decreases n,
{
    if n == 0 || n > ts.len() {
        Ok(State { out: Seq::empty(), stack: Seq::empty(), operand: false })
    } else {
        match run(ts, (n - 1) as nat) {
            Err(x) => Err(x),
            Ok(st) => step(ts, n - 1, st),
        }
    }
}

/// At the end, the stack goes to the output, top first; a `(` left on it
/// was never closed.
pub open spec fn drain(out: Seq<Token>, stack: Seq<Token>) -> Result<Seq<Token>, SymErr>
    decreases stack.len(),
{
    if stack.len() == 0 {
        Ok(out)
    } else if stack.last() == Token::Operator(Operator::LPa) {
        Err(SymErr::ParenthesesMismatch)
    } else {
        drain(out.push(stack.last()), stack.drop_last())
    }
}

/// The postfix form of infix tokens (shunting-yard).
pub open spec fn postfix_of(ts: Seq<Token>) -> Result<Seq<Token>, SymErr> {
    match run(ts, ts.len()) {
        Err(x) => Err(x),
        Ok(st) => drain(st.out, st.stack),
    }
}

/// One postfix token applied to the operand stack.
pub open spec fn build_step(fns: Seq<FunctionEntry>, stack: Seq<Term>, t: Token) -> Result<
    Seq<Term>,
    SymErr,
> {
    let n = stack.len();
    match t {
        Token::Number(x) => Ok(stack.push(Term::Number(x))),
        Token::Variable(s) => Ok(stack.push(Term::Variable(s))),
        Token::Operator(op) => if op == Operator::LPa || op == Operator::RPa {
            Err(SymErr::InvalidOP)
        } else if is_unary(op) {
            if n == 0 {
                Err(SymErr::StackEmpty)
            } else if op == Operator::Neg {
                Ok(stack.drop_last().push(neg_of(stack.last())))
            } else {
                Ok(stack)
            }
        } else if n < 2 {
            Err(SymErr::StackEmpty)
        } else {
            Ok(stack.take(n - 2).push(binary(op, stack[n - 2], stack[n - 1])))
        },
        Token::Comma => Err(SymErr::InvalidOP),
        Token::Function(name) => match arity_in(fns, name) {
            None => Err(SymErr::UnknownFunction),
            Some(k) => if n < k {
                Err(SymErr::InvalidFunctionArgCount)
            } else {
                Ok(stack.take(n - k).push(Term::Function(name, stack.skip(n - k))))
            },
        },
    }
}

/// The operand stack after the first `n` postfix tokens.
pub open spec fn build(fns: Seq<FunctionEntry>, ts: Seq<Token>, n: nat) -> Result<Seq<Term>, SymErr>
    decreases n,
{
    if n == 0 || n > ts.len() {
        Ok(Seq::empty())
    } else {
        match build(fns, ts, (n - 1) as nat) {
            Err(x) => Err(x),
            Ok(st) => build_step(fns, st, ts[n - 1]),
        }
    }
}

/// The tree of postfix tokens: exactly one operand must remain.
pub open spec fn tree_of(fns: Seq<FunctionEntry>, ts: Seq<Token>) -> Result<Term, SymErr> {
    match build(fns, ts, ts.len()) {
        Err(x) => Err(x),
        Ok(st) => if st.len() == 1 {
            Ok(st[0])
        } else {
            Err(SymErr::StackNotLengthOne)
        },
    }
}

/// What parsing an input string gives.
pub open spec fn parse_of(fns: Seq<FunctionEntry>, s: Seq<char>) -> Result<Term, SymErr> {
    match infix_of(s) {
        Err(x) => Err(x),
        Ok(infix) => match postfix_of(infix) {
            Err(x) => Err(x),
            Ok(postfix) => tree_of(fns, postfix),
        },
    }
}

proof fn lemma_tokenize_err(p: Seq<Seq<char>>, n: nat)
    requires
        n <= p.len(),
        tokenize(p, n) is Err,
    ensures
        tokenize(p, p.len()) == tokenize(p, n),
    decreases p.len() - n,
{
    if n < p.len() {
        lemma_tokenize_err(p, n + 1);
    }
}

fn is_single(s: &str, c: char) -> (r: bool)
    ensures
        r == (s@ == seq![c]),
{
    if s.unicode_len() == 1 && s.get_char(0) == c {
        assert(s@ =~= seq![c]);
        true
    } else {
        false
    }
}

/// Splits an input string into infix tokens.
pub fn parse_infix(engine: &Engine, infix_string: &str) -> (r: Result<Vec<Symbol>, SymErr>)
    ensures
        symbols_view(r) == infix_of(infix_string@),
{
    let py_fixed_str = clean_input(infix_string);
    let infix_split = split_segments(py_fixed_str.as_str());
    let ghost p = segments(clean(infix_string@));
    let mut result: Vec<Symbol> = Vec::new();
    let mut i: usize = 0;
    assert(tokens(result@) =~= Seq::<Token>::empty());
    while i < infix_split.len()
        invariant
            p == piece_views(infix_split@),
            p == segments(clean(infix_string@)),
            i <= infix_split@.len(),
            tokenize(p, i as nat) == Ok::<Seq<Token>, SymErr>(tokens(result@)),
        decreases infix_split.len() - i,
    {
        let to_parse = infix_split[i];
        assert(p[i as int] == to_parse@);
        let symbol = match Number::parse(to_parse) {
            Ok(number) => Symbol::Number(number),
            Err(_) => {
                let first = if to_parse.unicode_len() > 0 {
                    Some(to_parse.get_char(0))
                } else {
                    None
                };
                let oper = match first {
                    Some(c) => match Operator::from(c) {
                        Ok(op) => Some(op),
                        Err(_) => None,
                    },
                    None => None,
                };
                match oper {
                    Some(oper) => {
                        let is_sign = i == 0 || is_single(infix_split[i - 1], '(') || is_single(
                            infix_split[i - 1],
                            '-',
                        ) || is_single(infix_split[i - 1], '+');
                        proof {
                            if i > 0 {
                                assert(p[i - 1] == infix_split@[i - 1]@);
                            }
                        }
                        if is_sign && oper == Operator::Add {
                            Symbol::Operator(Operator::Pos)
                        } else if is_sign && oper == Operator::Sub {
                            Symbol::Operator(Operator::Neg)
                        } else if is_sign && !oper.is_parenthesis() {
                            proof {
                                assert(classify(p, i as int) == Err::<Token, SymErr>(SymErr::InvalidSign));
                                lemma_tokenize_err(p, (i + 1) as nat);
                            }
                            return Err(SymErr::InvalidSign);
                        } else {
                            Symbol::Operator(oper)
                        }
                    },
                    None => if is_single(to_parse, ',') {
                        Symbol::Comma
                    } else {
                        Symbol::Variable(String::from_str(to_parse))
                    },
                }
            },
        };
        let ghost prev = tokens(result@);
        result.push(symbol);
        assert(tokens(result@) =~= prev.push(symbol@));
        i = i + 1;
    }
    Ok(result)
}

impl Symbol {
    /// A copy of the token.
    pub fn duplicate(&self) -> (r: Symbol)
        ensures
            r@ == self@,
    {
        match self {
            Symbol::Number(n) => Symbol::Number(*n),
            Symbol::Variable(s) => Symbol::Variable(s.clone()),
            Symbol::Function(s) => Symbol::Function(s.clone()),
            Symbol::Operator(o) => Symbol::Operator(*o),
            Symbol::Comma => Symbol::Comma,
        }
    }
}

fn yields_exec(top: Operator, op: Operator) -> (r: bool)
    ensures
        r == yields(top, op),
{
    if op == Operator::Pos || op == Operator::Neg || top.is_parenthesis() || op.is_parenthesis() {
        return false;
    }
    match (top.precedence(), op.precedence()) {
        (Ok(a), Ok(b)) => a > b || (a == b && op != Operator::Pow),
        _ => false,
    }
}

fn push_token(v: &mut Vec<Symbol>, s: Symbol)
    ensures
        tokens(final(v)@) == tokens(old(v)@).push(s@),
{
    v.push(s);
    assert(tokens(final(v)@) =~= tokens(old(v)@).push(s@));
}

fn pop_token(v: &mut Vec<Symbol>) -> (r: Symbol)
    requires
        old(v)@.len() > 0,
    ensures
        tokens(final(v)@) == tokens(old(v)@).drop_last(),
        final(v)@.len() == old(v)@.len() - 1,
        r@ == tokens(old(v)@).last(),
{
    let r = v.pop().unwrap();
    assert(tokens(final(v)@) =~= tokens(old(v)@).drop_last());
    r
}

/// Moves the operators that yield to `op` to the output.
fn settle_exec(postfix: &mut Vec<Symbol>, stack: &mut Vec<Symbol>, op: Operator)
    ensures
        (tokens(final(postfix)@), tokens(final(stack)@)) == settle(
            tokens(old(postfix)@),
            tokens(old(stack)@),
            op,
        ),
{
    let ghost goal = settle(tokens(postfix@), tokens(stack@), op);
    loop
        invariant
            goal == settle(tokens(postfix@), tokens(stack@), op),
            goal == settle(tokens(old(postfix)@), tokens(old(stack)@), op),
        decreases stack@.len(),
    {
        let n = stack.len();
        if n == 0 {
            return;
        }
        let go = match &stack[n - 1] {
            Symbol::Operator(top) => yields_exec(*top, op),
            _ => false,
        };
        assert(tokens(stack@).last() == stack@[n - 1]@);
        if !go {
            return;
        }
        let top = pop_token(stack);
        push_token(postfix, top);
    }
}

/// Handles `)`; false when no `(` is open.
fn close_exec(postfix: &mut Vec<Symbol>, stack: &mut Vec<Symbol>) -> (r: bool)
    ensures
        r == close(tokens(old(postfix)@), tokens(old(stack)@)) is Some,
        r ==> close(tokens(old(postfix)@), tokens(old(stack)@)) == Some(
            (tokens(final(postfix)@), tokens(final(stack)@)),
        ),
{
    let ghost goal = close(tokens(postfix@), tokens(stack@));
    loop
        invariant
            goal == close(tokens(postfix@), tokens(stack@)),
            goal == close(tokens(old(postfix)@), tokens(old(stack)@)),
        decreases stack@.len(),
    {
        let n = stack.len();
        if n == 0 {
            return false;
        }
        let top = pop_token(stack);
        if let Symbol::Operator(Operator::LPa) = top {
            let m = stack.len();
            if m > 0 {
                let is_function = match &stack[m - 1] {
                    Symbol::Function(_) => true,
                    _ => false,
                };
                assert(tokens(stack@).last() == stack@[m - 1]@);
                if is_function {
                    let f = pop_token(stack);
                    push_token(postfix, f);
                }
            }
            return true;
        }
        push_token(postfix, top);
    }
}

/// Handles a comma; false when no `(` is open.
fn comma_exec(postfix: &mut Vec<Symbol>, stack: &mut Vec<Symbol>) -> (r: bool)
    ensures
        r == to_paren(tokens(old(postfix)@), tokens(old(stack)@)) is Some,
        r ==> to_paren(tokens(old(postfix)@), tokens(old(stack)@)) == Some(
            (tokens(final(postfix)@), tokens(final(stack)@)),
        ),
{
    let ghost goal = to_paren(tokens(postfix@), tokens(stack@));
    loop
        invariant
            goal == to_paren(tokens(postfix@), tokens(stack@)),
            goal == to_paren(tokens(old(postfix)@), tokens(old(stack)@)),
        decreases stack@.len(),
    {
        let n = stack.len();
        if n == 0 {
            return false;
        }
        let open = match &stack[n - 1] {
            Symbol::Operator(Operator::LPa) => true,
            _ => false,
        };
        assert(tokens(stack@).last() == stack@[n - 1]@);
        if open {
            return true;
        }
        let top = pop_token(stack);
        push_token(postfix, top);
    }
}

/// Empties the stack into the output; false when a `(` is left on it.
fn drain_exec(postfix: &mut Vec<Symbol>, stack: &mut Vec<Symbol>) -> (r: bool)
    ensures
        r == drain(tokens(old(postfix)@), tokens(old(stack)@)) is Ok,
        r ==> drain(tokens(old(postfix)@), tokens(old(stack)@)) == Ok::<Seq<Token>, SymErr>(
            tokens(final(postfix)@),
        ),
        !r ==> drain(tokens(old(postfix)@), tokens(old(stack)@)) == Err::<Seq<Token>, SymErr>(
            SymErr::ParenthesesMismatch,
        ),
{
    let ghost goal = drain(tokens(postfix@), tokens(stack@));
    loop
        invariant
            goal == drain(tokens(postfix@), tokens(stack@)),
            goal == drain(tokens(old(postfix)@), tokens(old(stack)@)),
        decreases stack@.len(),
    {
        if stack.len() == 0 {
            return true;
        }
        let top = pop_token(stack);
        if let Symbol::Operator(Operator::LPa) = top {
            return false;
        }
        push_token(postfix, top);
    }
}

proof fn lemma_run_err(ts: Seq<Token>, n: nat)
    requires
        n <= ts.len(),
        run(ts, n) is Err,
    ensures
        run(ts, ts.len()) == run(ts, n),
    decreases ts.len() - n,
{
    if n < ts.len() {
        lemma_run_err(ts, n + 1);
    }
}

/// Converts infix tokens to postfix (shunting-yard): operators by
/// precedence and grouping, parentheses, implicit multiplication before `(`,
/// and a name before `(` as a function call.
pub fn to_postfix(engine: &Engine, infix: &Vec<Symbol>) -> (r: Result<Vec<Symbol>, SymErr>)
    ensures
        symbols_view(r) == postfix_of(tokens(infix@)),
{
    let ghost ts = tokens(infix@);
    let mut postfix: Vec<Symbol> = Vec::new();
    let mut operator_stack: Vec<Symbol> = Vec::new();
    let mut last_was_operand = false;
    let mut i: usize = 0;
    assert(tokens(postfix@) =~= Seq::<Token>::empty());
    assert(tokens(operator_stack@) =~= Seq::<Token>::empty());
    while i < infix.len()
        invariant
            ts == tokens(infix@),
            i <= infix@.len(),
            run(ts, i as nat) == Ok::<State, SymErr>(
                State {
                    out: tokens(postfix@),
                    stack: tokens(operator_stack@),
                    operand: last_was_operand,
                },
            ),
        decreases infix.len() - i,
    {
        assert(ts[i as int] == infix@[i as int]@);
        match &infix[i] {
            Symbol::Number(_) => {
                push_token(&mut postfix, infix[i].duplicate());
                last_was_operand = true;
            },
            Symbol::Variable(name) => {
                let opens = i + 1 < infix.len() && match &infix[i + 1] {
                    Symbol::Operator(Operator::LPa) => true,
                    _ => false,
                };
                proof {
                    if i + 1 < infix@.len() {
                        assert(ts[i + 1] == infix@[i + 1]@);
                    }
                }
                if opens {
                    push_token(&mut operator_stack, Symbol::Function(name.clone()));
                    last_was_operand = false;
                } else {
                    push_token(&mut postfix, infix[i].duplicate());
                    last_was_operand = true;
                }
            },
            Symbol::Function(_) => {
                push_token(&mut operator_stack, infix[i].duplicate());
                last_was_operand = false;
            },
            Symbol::Comma => {
                if !comma_exec(&mut postfix, &mut operator_stack) {
                    proof {
                        lemma_run_err(ts, (i + 1) as nat);
                    }
                    return Err(SymErr::ParenthesesMismatch);
                }
                last_was_operand = false;
            },
            Symbol::Operator(Operator::LPa) => {
                if last_was_operand {
                    settle_exec(&mut postfix, &mut operator_stack, Operator::Mul);
                    push_token(&mut operator_stack, Symbol::Operator(Operator::Mul));
                }
                push_token(&mut operator_stack, Symbol::Operator(Operator::LPa));
                last_was_operand = false;
            },
            Symbol::Operator(Operator::RPa) => {
                if !close_exec(&mut postfix, &mut operator_stack) {
                    proof {
                        lemma_run_err(ts, (i + 1) as nat);
                    }
                    return Err(SymErr::ParenthesesMismatch);
                }
                last_was_operand = true;
            },
            Symbol::Operator(oper) => {
                settle_exec(&mut postfix, &mut operator_stack, *oper);
                push_token(&mut operator_stack, Symbol::Operator(*oper));
                last_was_operand = false;
            },
        }
        i = i + 1;
    }
    if drain_exec(&mut postfix, &mut operator_stack) {
        Ok(postfix)
    } else {
        Err(SymErr::ParenthesesMismatch)
    }
}

fn push_expr(v: &mut Vec<Expr>, e: Expr)
    ensures
        terms(final(v)@) == terms(old(v)@).push(e@),
{
    v.push(e);
    assert(terms(final(v)@) =~= terms(old(v)@).push(e@));
}

fn pop_expr(v: &mut Vec<Expr>) -> (r: Expr)
    requires
        old(v)@.len() > 0,
    ensures
        terms(final(v)@) == terms(old(v)@).drop_last(),
        final(v)@.len() == old(v)@.len() - 1,
        r@ == terms(old(v)@).last(),
{
    let r = v.pop().unwrap();
    assert(terms(final(v)@) =~= terms(old(v)@).drop_last());
    r
}

proof fn lemma_build_err(fns: Seq<FunctionEntry>, ts: Seq<Token>, n: nat)
    requires
        n <= ts.len(),
        build(fns, ts, n) is Err,
    ensures
        build(fns, ts, ts.len()) == build(fns, ts, n),
    decreases ts.len() - n,
{
    if n < ts.len() {
        lemma_build_err(fns, ts, n + 1);
    }
}

/// Builds the tree of postfix tokens.
pub fn postfix_to_tree(engine: &Engine, postfix: &Vec<Symbol>) -> (r: Result<Expr, SymErr>)
    ensures
        result_view(r) == tree_of(engine.functions@, tokens(postfix@)),
{
    let ghost fns = engine.functions@;
    let ghost ts = tokens(postfix@);
    let mut mixed_stack: Vec<Expr> = Vec::new();
    let mut i: usize = 0;
    assert(terms(mixed_stack@) =~= Seq::<Term>::empty());
    while i < postfix.len()
        invariant
            fns == engine.functions@,
            ts == tokens(postfix@),
            i <= postfix@.len(),
            build(fns, ts, i as nat) == Ok::<Seq<Term>, SymErr>(terms(mixed_stack@)),
        decreases postfix.len() - i,
    {
        assert(ts[i as int] == postfix@[i as int]@);
        let ghost before = terms(mixed_stack@);
        match &postfix[i] {
            Symbol::Number(n) => {
                push_expr(&mut mixed_stack, Expr::Number(*n));
            },
            Symbol::Variable(s) => {
                push_expr(&mut mixed_stack, Expr::Variable(s.clone()));
            },
            Symbol::Operator(op) => {
                if op.is_parenthesis() {
                    proof {
                        lemma_build_err(fns, ts, (i + 1) as nat);
                    }
                    return Err(SymErr::InvalidOP);
                } else if *op == Operator::Pos || *op == Operator::Neg {
                    if mixed_stack.len() == 0 {
                        proof {
                            lemma_build_err(fns, ts, (i + 1) as nat);
                        }
                        return Err(SymErr::StackEmpty);
                    }
                    if *op == Operator::Neg {
                        let a = pop_expr(&mut mixed_stack);
                        push_expr(&mut mixed_stack, a.neg());
                    }
                } else {
                    if mixed_stack.len() < 2 {
                        proof {
                            lemma_build_err(fns, ts, (i + 1) as nat);
                        }
                        return Err(SymErr::StackEmpty);
                    }
                    let a = pop_expr(&mut mixed_stack);
                    let b = pop_expr(&mut mixed_stack);
                    assert(before.drop_last().drop_last() =~= before.take(before.len() - 2));
                    push_expr(&mut mixed_stack, node(*op, b, a));
                }
            },
            Symbol::Comma => {
                proof {
                    lemma_build_err(fns, ts, (i + 1) as nat);
                }
                return Err(SymErr::InvalidOP);
            },
            Symbol::Function(s) => {
                let argc = match engine.lookup(s.as_str()) {
                    Some(argc) => argc,
                    None => {
                        proof {
                            lemma_build_err(fns, ts, (i + 1) as nat);
                        }
                        return Err(SymErr::UnknownFunction);
                    },
                };
                let n = mixed_stack.len();
                if n < argc as usize {
                    proof {
                        lemma_build_err(fns, ts, (i + 1) as nat);
                    }
                    return Err(SymErr::InvalidFunctionArgCount);
                }
                let arguments = mixed_stack.split_off(n - argc as usize);
                assert(terms(mixed_stack@) =~= before.take(n - argc));
                assert(terms(arguments@) =~= before.skip(n - argc));
                let f = Expr::Function(Tree { value: s.clone(), next: arguments });
                proof {
                    lemma_children(&f);
                }
                push_expr(&mut mixed_stack, f);
            },
        }
        i = i + 1;
    }
    if mixed_stack.len() == 1 {
        let e = pop_expr(&mut mixed_stack);
        Ok(e)
    } else {
        Err(SymErr::StackNotLengthOne)
    }
}

impl Engine {
    /// Parses an infix expression (see `Expr::parse`).
    pub fn parse_infix(&self, infix_string: &str) -> (r: Result<Expr, SymErr>)
        ensures
            result_view(r) == parse_of(self.functions@, infix_string@),
    {
        Expr::parse(self, infix_string)
    }
}

impl Expr {
    /// Parses an infix expression.
    pub fn parse(engine: &Engine, infix_string: &str) -> (r: Result<Expr, SymErr>)
        ensures
            result_view(r) == parse_of(engine.functions@, infix_string@),
    {
        match parse_infix(engine, infix_string) {
            Err(x) => Err(x),
            Ok(infix) => match to_postfix(engine, &infix) {
                Err(x) => Err(x),
                Ok(postfix) => postfix_to_tree(engine, &postfix),
            },
        }
    }
}

} // verus!
