use vstd::prelude::*;

use crate::engine::FunctionEntry;
use crate::eval::eval_term;
use crate::expr::{Term, Token, binary, neg_of};
use crate::number::{Number, digits_value, number_of};
use crate::parse::{
    State, build, classify, drain, parse_of, postfix_of, run, settle, sign_position, tokenize,
    tree_of,
};
use crate::text::{clean, flush, scan, segments};
use crate::types::Operator;

verus! {

pub open spec fn is_sign_char(c: char) -> bool {
    c == '+' || c == '-'
}

/// How many `-` there are in `s`.
pub open spec fn minus_count(s: Seq<char>) -> nat
    decreases s.len(),
{
    if s.len() == 0 {
        0
    } else {
        (if s[0] == '-' {
            1nat
        } else {
            0nat
        }) + minus_count(s.skip(1))
    }
}

/// `1`, then the signs, then `1`.
pub open spec fn sign_input(signs: Seq<char>) -> Seq<char> {
    seq!['1'] + signs + seq!['1']
}

pub open spec fn one() -> Token {
    Token::Number(Number::Rational(1, 1))
}

pub open spec fn binary_of(c: char) -> Operator {
    if c == '+' {
        Operator::Add
    } else {
        Operator::Sub
    }
}

pub open spec fn unary_of(c: char) -> Operator {
    if c == '+' {
        Operator::Pos
    } else {
        Operator::Neg
    }
}

/// The operator tokens of the signs: the first is binary, the others unary.
pub open spec fn sign_ops(signs: Seq<char>) -> Seq<Token> {
    Seq::new(
        signs.len(),
        |i: int|
            if i == 0 {
                Token::Operator(binary_of(signs[0]))
            } else {
                Token::Operator(unary_of(signs[i]))
            },
    )
}

pub open spec fn reversed(s: Seq<Token>) -> Seq<Token> {
    Seq::new(s.len(), |i: int| s[s.len() - 1 - i])
}

proof fn lemma_clean_plain(s: Seq<char>)
    requires
        forall|i: int| 0 <= i < s.len() ==> s[i] != ' ' && s[i] != '*',
    ensures
        clean(s) == s,
    decreases s.len(),
{
    if s.len() > 0 {
        let t = s.skip(1);
        assert forall|i: int| 0 <= i < t.len() implies t[i] != ' ' && t[i] != '*' by {
            assert(t[i] == s[i + 1]);
        }
        lemma_clean_plain(t);
        assert(seq![s[0]] + t =~= s);
    }
}

pub open spec fn sign_pieces(signs: Seq<char>) -> Seq<Seq<char>> {
    Seq::new(signs.len(), |i: int| seq![signs[i]])
}

proof fn lemma_scan_signs(signs: Seq<char>, k: nat)
    requires
        1 <= k <= signs.len(),
        forall|i: int| 0 <= i < signs.len() ==> is_sign_char(#[trigger] signs[i]),
    ensures
        scan(sign_input(signs).take((k + 1) as int)) == (
            seq![seq!['1']] + sign_pieces(signs.take(k as int)),
            Seq::<char>::empty(),
        ),
    decreases k,
{
    let s = sign_input(signs);
    let c = signs[k - 1];
    assert(s.take((k + 1) as int).drop_last() =~= s.take(k as int));
    assert(s.take((k + 1) as int).last() == c);
    if k == 1 {
        let first = s.take(1);
        assert(first.drop_last() =~= Seq::<char>::empty());
        assert(first.last() == '1');
        assert(first.drop_last().len() == 0);
        assert(scan(first.drop_last()) == (Seq::<Seq<char>>::empty(), Seq::<char>::empty()));
        assert(Seq::<char>::empty().push('1') =~= seq!['1']);
        assert(scan(first) == (Seq::<Seq<char>>::empty(), seq!['1']));
        assert(flush(Seq::<Seq<char>>::empty(), seq!['1']) =~= seq![seq!['1']]);
        assert(seq![seq!['1']] + seq![seq![c]] =~= seq![seq!['1']] + sign_pieces(
            signs.take(1),
        ));
    } else {
        lemma_scan_signs(signs, (k - 1) as nat);
        assert(seq![seq!['1']] + sign_pieces(signs.take(k - 1)) + seq![seq![c]] =~= seq![
            seq!['1'],
        ] + sign_pieces(signs.take(k as int)));
    }
}

proof fn lemma_pieces_signs(signs: Seq<char>)
    requires
        signs.len() >= 1,
        forall|i: int| 0 <= i < signs.len() ==> is_sign_char(#[trigger] signs[i]),
    ensures
        segments(clean(sign_input(signs))) == seq![seq!['1']] + sign_pieces(signs) + seq![seq!['1']],
{
    let s = sign_input(signs);
    let n = signs.len();
    assert forall|i: int| 0 <= i < s.len() implies s[i] != ' ' && s[i] != '*' by {
        if 1 <= i <= n {
            assert(s[i] == signs[i - 1]);
        }
    }
    lemma_clean_plain(s);
    lemma_scan_signs(signs, n);
    assert(s.drop_last() =~= s.take((n + 1) as int));
    assert(signs.take(n as int) =~= signs);
    assert(Seq::<char>::empty().push('1') =~= seq!['1']);
}

pub open spec fn sign_tokens(signs: Seq<char>) -> Seq<Token> {
    seq![one()] + sign_ops(signs) + seq![one()]
}

proof fn lemma_number_one()
    ensures
        number_of(seq!['1']) == Ok::<Number, crate::types::SymErr>(Number::Rational(1, 1)),
{
    let s = seq!['1'];
    assert(s.drop_last() =~= Seq::<char>::empty());
    assert(digits_value(s.drop_last()) == 0);
    assert(digits_value(s) == 1);
}

proof fn lemma_classify_signs(signs: Seq<char>, i: int)
    requires
        signs.len() >= 1,
        forall|j: int| 0 <= j < signs.len() ==> is_sign_char(#[trigger] signs[j]),
        0 <= i < signs.len() + 2,
    ensures
        classify(seq![seq!['1']] + sign_pieces(signs) + seq![seq!['1']], i) == Ok::<
            Token,
            crate::types::SymErr,
        >(sign_tokens(signs)[i]),
{
    let p = seq![seq!['1']] + sign_pieces(signs) + seq![seq!['1']];
    let n = signs.len();
    let t = sign_tokens(signs);
    lemma_number_one();
    if i == 0 {
        assert(p[0] == seq!['1']);
    } else if i == n + 1 {
        assert(p[i] == seq!['1']);
    } else {
        let c = signs[i - 1];
        assert(p[i] == seq![c]);
        assert(!crate::number::all_digits(p[i]));
        assert(t[i] == sign_ops(signs)[i - 1]);
        if i == 1 {
            assert(p[0] == seq!['1']);
            assert(p[0] != seq!['(']) by {
                assert(p[0][0] != seq!['('][0]);
            }
            assert(p[0] != seq!['-']) by {
                assert(p[0][0] != seq!['-'][0]);
            }
            assert(p[0] != seq!['+']) by {
                assert(p[0][0] != seq!['+'][0]);
            }
            assert(!sign_position(p, i));
        } else {
            let b = signs[i - 2];
            assert(p[i - 1] == seq![b]);
            assert(sign_position(p, i));
        }
    }
}

proof fn lemma_tokenize_signs(signs: Seq<char>, m: nat)
    requires
        signs.len() >= 1,
        forall|j: int| 0 <= j < signs.len() ==> is_sign_char(#[trigger] signs[j]),
        m <= signs.len() + 2,
    ensures
        tokenize(seq![seq!['1']] + sign_pieces(signs) + seq![seq!['1']], m) == Ok::<
            Seq<Token>,
            crate::types::SymErr,
        >(sign_tokens(signs).take(m as int)),
    decreases m,
{
    let t = sign_tokens(signs);
    if m == 0 {
        assert(t.take(0) =~= Seq::<Token>::empty());
    } else {
        lemma_tokenize_signs(signs, (m - 1) as nat);
        lemma_classify_signs(signs, m - 1);
        assert(t.take(m - 1).push(t[m - 1]) =~= t.take(m as int));
    }
}

proof fn lemma_run_signs(signs: Seq<char>, m: nat)
    requires
        signs.len() >= 1,
        forall|j: int| 0 <= j < signs.len() ==> is_sign_char(#[trigger] signs[j]),
        1 <= m <= signs.len() + 1,
    ensures
        run(sign_tokens(signs), m) == Ok::<State, crate::types::SymErr>(
            State {
                out: seq![one()],
                stack: sign_ops(signs).take(m - 1),
                operand: m == 1,
            },
        ),
    decreases m,
{
    let t = sign_tokens(signs);
    let ops = sign_ops(signs);
    if m == 1 {
        let start = State { out: Seq::empty(), stack: Seq::empty(), operand: false };
        assert(run(t, 0) == Ok::<State, crate::types::SymErr>(start));
        assert(t[0] == one());
        assert(Seq::<Token>::empty().push(one()) =~= seq![one()]);
        assert(ops.take(0) =~= Seq::<Token>::empty());
    } else {
        lemma_run_signs(signs, (m - 1) as nat);
        let k = m - 2;
        assert(t[m - 1] == ops[k]);
        let op = ops[k]->Operator_0;
        let stack = ops.take(k);
        if k == 0 {
            assert(settle(seq![one()], stack, op) == (seq![one()], stack));
        } else {
            assert(stack.last() == ops[k - 1]);
            assert(settle(seq![one()], stack, op) == (seq![one()], stack));
        }
        assert(stack.push(Token::Operator(op)) =~= ops.take(k + 1));
    }
}

proof fn lemma_drain_plain(out: Seq<Token>, stack: Seq<Token>)
    requires
        forall|i: int| 0 <= i < stack.len() ==> stack[i] != Token::Operator(Operator::LPa),
    ensures
        drain(out, stack) == Ok::<Seq<Token>, crate::types::SymErr>(out + reversed(stack)),
    decreases stack.len(),
{
    if stack.len() > 0 {
        let rest = stack.drop_last();
        assert(stack.last() == stack[stack.len() - 1]);
        lemma_drain_plain(out.push(stack.last()), rest);
        assert(out.push(stack.last()) + reversed(rest) =~= out + reversed(stack));
    } else {
        assert(out + reversed(stack) =~= out);
    }
}

proof fn lemma_postfix_signs(signs: Seq<char>)
    requires
        signs.len() >= 1,
        forall|j: int| 0 <= j < signs.len() ==> is_sign_char(#[trigger] signs[j]),
    ensures
        postfix_of(sign_tokens(signs)) == Ok::<Seq<Token>, crate::types::SymErr>(
            seq![one(), one()] + reversed(sign_ops(signs)),
        ),
{
    let t = sign_tokens(signs);
    let n = signs.len();
    let ops = sign_ops(signs);
    lemma_run_signs(signs, n + 1);
    assert(ops.take(n as int) =~= ops);
    assert(t[(n + 1) as int] == one());
    assert(seq![one()].push(one()) =~= seq![one(), one()]);
    assert(run(t, t.len()) == Ok::<State, crate::types::SymErr>(
        State { out: seq![one(), one()], stack: ops, operand: true },
    ));
    lemma_drain_plain(seq![one(), one()], ops);
}

pub open spec fn whole(v: int) -> Term {
    Term::Number(Number::Rational(v as i64, 1))
}

/// `1` for an even count of `-`, `-1` for an odd one.
pub open spec fn parity_sign(k: nat) -> int {
    if k % 2 == 0 {
        1
    } else {
        -1
    }
}

proof fn lemma_build_signs(fns: Seq<FunctionEntry>, signs: Seq<char>, j: nat)
    requires
        signs.len() >= 1,
        forall|i: int| 0 <= i < signs.len() ==> is_sign_char(#[trigger] signs[i]),
        j <= signs.len() - 1,
    ensures
        build(fns, seq![one(), one()] + reversed(sign_ops(signs)), j + 2) == Ok::<
            Seq<Term>,
            crate::types::SymErr,
        >(
            seq![
                whole(1),
                whole(parity_sign(minus_count(signs.subrange(signs.len() - j, signs.len() as int)))),
            ],
        ),
    decreases j,
{
    let q = seq![one(), one()] + reversed(sign_ops(signs));
    let n = signs.len();
    if j == 0 {
        assert(build(fns, q, 0) == Ok::<Seq<Term>, crate::types::SymErr>(Seq::empty()));
        assert(q[0] == one());
        assert(q[1] == one());
        assert(Seq::<Term>::empty().push(whole(1)) =~= seq![whole(1)]);
        assert(build(fns, q, 1) == Ok::<Seq<Term>, crate::types::SymErr>(seq![whole(1)]));
        assert(seq![whole(1)].push(whole(1)) =~= seq![whole(1), whole(1)]);
        assert(signs.subrange(n as int, n as int).len() == 0);
    } else {
        lemma_build_signs(fns, signs, (j - 1) as nat);
        let before = signs.subrange(n - (j - 1), n as int);
        let now = signs.subrange(n - j, n as int);
        assert(now.skip(1) =~= before);
        assert(now[0] == signs[n - j]);
        let c = signs[n - j];
        assert(q[(j + 1) as int] == sign_ops(signs)[n - j]);
        let v = parity_sign(minus_count(before));
        let st = seq![whole(1), whole(v)];
        assert(st.drop_last() =~= seq![whole(1)]);
        assert(st.last() == whole(v));
        if c == '-' {
            assert(neg_of(whole(v)) == whole(-v));
            assert(seq![whole(1)].push(whole(-v)) =~= seq![whole(1), whole(-v)]);
        }
    }
}

proof fn lemma_lowest_two_zero()
    ensures
        crate::number::lowest(2, 1) == Some(Number::Rational(2, 1)),
        crate::number::lowest(0, 1) == Some(Number::Rational(0, 1)),
{
    assert(crate::number::gcd(1, 0) == 1);
    assert(crate::number::gcd(2, 1) == crate::number::gcd(1, 0));
    assert(crate::number::gcd(0, 1) == crate::number::gcd(1, 0));
    assert(crate::number::abs(2) == 2);
    assert(crate::number::abs(1) == 1);
    assert(crate::number::abs(0) == 0);
}

/// `1 ± 1` and `1 ± (-1)` on exact numbers.
proof fn lemma_unit_sums()
    ensures
        Number::Rational(1, 1).spec_add(Number::Rational(1, 1)) == Some(Number::Rational(2, 1)),
        Number::Rational(1, 1).spec_add(Number::Rational(-1i64, 1)) == Some(Number::Rational(0, 1)),
        Number::Rational(1, 1).spec_sub(Number::Rational(1, 1)) == Some(Number::Rational(0, 1)),
        Number::Rational(1, 1).spec_sub(Number::Rational(-1i64, 1)) == Some(Number::Rational(2, 1)),
{
    lemma_lowest_two_zero();
    let one = Number::Rational(1, 1);
    let minus = Number::Rational(-1i64, 1);
    assert(one.num() * one.den() + one.num() * one.den() == 2);
    assert(one.num() * minus.den() + minus.num() * one.den() == 0);
    assert(one.num() * one.den() - one.num() * one.den() == 0);
    assert(one.num() * minus.den() - minus.num() * one.den() == 2);
    assert(one.den() * one.den() == 1);
    assert(one.den() * minus.den() == 1);
}

/// Sign folding: `1`, then one or more signs `+` and `-`, then `1`, parses
/// and evaluates to `2` when the count of `-` is even and to `0` when it is
/// odd.
pub proof fn lemma_sign_folding(fns: Seq<FunctionEntry>, signs: Seq<char>)
    requires
        signs.len() >= 1,
        forall|i: int| 0 <= i < signs.len() ==> is_sign_char(#[trigger] signs[i]),
    ensures
        parse_of(fns, sign_input(signs)) is Ok,
        eval_term(fns, parse_of(fns, sign_input(signs))->Ok_0) == Ok::<
            Term,
            crate::types::SymErr,
        >(
            if minus_count(signs) % 2 == 0 {
                whole(2)
            } else {
                whole(0)
            },
        ),
{
    let n = signs.len();
    let p = seq![seq!['1']] + sign_pieces(signs) + seq![seq!['1']];
    lemma_pieces_signs(signs);
    lemma_tokenize_signs(signs, n + 2);
    let t = sign_tokens(signs);
    assert(t.take((n + 2) as int) =~= t);
    lemma_postfix_signs(signs);
    let q = seq![one(), one()] + reversed(sign_ops(signs));
    lemma_build_signs(fns, signs, (n - 1) as nat);
    let rest = signs.subrange(1, n as int);
    assert(signs.skip(1) =~= rest);
    let v = parity_sign(minus_count(rest));
    let b = binary_of(signs[0]);
    assert(q[(n + 1) as int] == Token::Operator(b));
    let st = seq![whole(1), whole(v)];
    assert(st.take(0).push(binary(b, st[0], st[1])) =~= seq![binary(b, whole(1), whole(v))]);
    let tree = binary(b, whole(1), whole(v));
    assert(build(fns, q, q.len()) == Ok::<Seq<Term>, crate::types::SymErr>(seq![tree]));
    assert(tree_of(fns, q) == Ok::<Term, crate::types::SymErr>(tree));
    assert(parse_of(fns, sign_input(signs)) == Ok::<Term, crate::types::SymErr>(tree));
    assert(tree->Operator_1[0] == whole(1));
    assert(tree->Operator_1[1] == whole(v));
    lemma_unit_sums();
    assert(eval_term(fns, whole(1)) == Ok::<Term, crate::types::SymErr>(whole(1)));
    assert(eval_term(fns, whole(v)) == Ok::<Term, crate::types::SymErr>(whole(v)));
    let one_n = Number::Rational(1, 1);
    let v_n = Number::Rational(v as i64, 1);
    let total = minus_count(signs);
    assert(total == (if signs[0] == '-' { 1nat } else { 0nat }) + minus_count(rest));
    let expected = if total % 2 == 0 {
        whole(2)
    } else {
        whole(0)
    };
    if signs[0] == '+' {
        assert(b == Operator::Add);
        if v == 1 {
            assert(v_n == Number::Rational(1, 1));
        } else {
            assert(v_n == Number::Rational(-1i64, 1));
        }
        assert(crate::eval::apply_of(b, whole(1), whole(v)) == expected);
    } else {
        assert(b == Operator::Sub);
        if v == 1 {
            assert(v_n == Number::Rational(1, 1));
        } else {
            assert(v_n == Number::Rational(-1i64, 1));
        }
        assert(crate::eval::apply_of(b, whole(1), whole(v)) == expected);
    }
}

} // verus!
