use cas::engine::FunctionEntry;
use cas::eval::eval_tree;
use cas::functions::{all, ln};
use cas::parse::{parse_infix, postfix_to_tree, split_keep, to_postfix};
use cas::text::split_segments;
use cas::print::{tree_to_infix, tree_to_latex};
use cas::simplifier::Simplifier;
use cas::{Associativity, Engine, Expr, Number, Operator, SymErr, Symbol, Tree};

fn whole(n: i64) -> Expr {
    Expr::Number(Number::Rational(n, 1))
}

fn var(s: &str) -> Expr {
    Expr::Variable(s.to_string())
}

fn op(o: Operator, l: Expr, r: Expr) -> Expr {
    Expr::Operator(Tree { value: o, next: vec![l, r] })
}

fn engine() -> Engine {
    Engine::new().with_functions()
}

fn eval_str(s: &str) -> Result<Expr, SymErr> {
    let e = engine();
    Expr::parse(&e, s)?.eval(&e)
}

#[test]
fn integer_input_stays_exact() {
    assert_eq!(eval_str("43*(4*(81/9))"), Ok(whole(1548)));
    assert_eq!(eval_str("1/3+1/6"), Ok(Expr::Number(Number::Rational(1, 2))));
    assert_eq!(eval_str("2/4"), Ok(Expr::Number(Number::Rational(1, 2))));
}

#[test]
fn sign_folding_each_count() {
    assert_eq!(eval_str("1+1"), Ok(whole(2)));
    assert_eq!(eval_str("1-1"), Ok(whole(0)));
    assert_eq!(eval_str("1--1"), Ok(whole(2)));
    assert_eq!(eval_str("1+-+-1"), Ok(whole(2)));
    assert_eq!(eval_str("1-+-+-1"), Ok(whole(0)));
}

#[test]
fn unary_minus_binds_looser_than_power() {
    assert_eq!(eval_str("-2^6"), Ok(whole(-64)));
    assert_eq!(eval_str("(-2)^6"), Ok(whole(64)));
    assert_eq!(eval_str("2^3^2"), Ok(whole(512)));
    assert_eq!(eval_str("2^-1"), Err(SymErr::StackEmpty));
}

#[test]
fn logarithm_exact_cases() {
    assert_eq!(eval_str("ln(1)"), Ok(whole(0)));
    assert_eq!(eval_str("ln(0)"), Err(SymErr::Undefined));
    assert_eq!(eval_str("ln(2-3)"), Err(SymErr::Undefined));
    let e = engine();
    let kept = Expr::parse(&e, "ln(2)").unwrap().eval(&e).unwrap();
    assert_eq!(kept, Expr::Function(Tree { value: "ln".to_string(), next: vec![whole(2)] }));
}

#[test]
fn parse_errors() {
    assert_eq!(eval_str("(1+2"), Err(SymErr::ParenthesesMismatch));
    assert_eq!(eval_str("1+2)"), Err(SymErr::ParenthesesMismatch));
    assert_eq!(eval_str("foo(1)"), Err(SymErr::UnknownFunction));
    assert_eq!(eval_str("sin()"), Err(SymErr::InvalidFunctionArgCount));
    assert_eq!(eval_str("*2"), Err(SymErr::InvalidSign));
    assert_eq!(eval_str("1+"), Err(SymErr::StackEmpty));
    assert_eq!(eval_str(""), Err(SymErr::StackNotLengthOne));
}

#[test]
fn postfix_errors() {
    let e = engine();
    let paren = vec![Symbol::Operator(Operator::LPa)];
    assert_eq!(postfix_to_tree(&e, &paren), Err(SymErr::InvalidOP));
    let two = vec![Symbol::Number(Number::Rational(1, 1)), Symbol::Number(Number::Rational(2, 1))];
    assert_eq!(postfix_to_tree(&e, &two), Err(SymErr::StackNotLengthOne));
    assert_eq!(postfix_to_tree(&e, &vec![Symbol::Comma]), Err(SymErr::InvalidOP));
}

#[test]
fn simplifier_rules() {
    let e = engine();
    let x_plus_0 = op(Operator::Add, var("x"), whole(0));
    assert_eq!(x_plus_0.simplify(&e), var("x"));
    let x_times_x = op(Operator::Mul, var("x"), var("x"));
    assert_eq!(x_times_x.simplify(&e), op(Operator::Pow, var("x"), whole(2)));
    let x_over_x = op(Operator::Div, var("x"), var("x"));
    assert_eq!(x_over_x.simplify(&e), whole(1));
    let log_e = Expr::function("log", vec![var("e"), var("y")]);
    assert_eq!(log_e.simplify(&e), Expr::function("ln", vec![var("y")]));
}

#[test]
fn simplify_twice_is_simplify_once() {
    let e = engine();
    for s in ["x*x", "a+(b+c)", "x/y", "x+x", "y*x-x"] {
        let once = Expr::parse(&e, s).unwrap().simplify(&e);
        let twice = once.simplify(&e);
        assert_eq!(once, twice, "{}", s);
    }
}

#[test]
fn eval_twice_is_eval_once() {
    let e = engine();
    for s in ["x+1*2", "ln(y)+3", "1/0", "2^(1/2)", "-(x)"] {
        let once = Expr::parse(&e, s).unwrap().eval(&e).unwrap();
        let twice = once.eval(&e).unwrap();
        assert_eq!(once, twice, "{}", s);
    }
}

#[test]
fn partial_evaluation() {
    assert_eq!(
        eval_str("x+2*3"),
        Ok(op(Operator::Add, var("x"), whole(6)))
    );
    assert_eq!(eval_str("1/0"), Ok(op(Operator::Div, whole(1), whole(0))));
}

#[test]
fn printing_round_trip() {
    let e = engine();
    for s in ["1-(2-3)", "(2^3)^2", "x*(y+z)", "-(a+b)*c", "a+-b", "sin(x)^2", "(1/2)*x"] {
        let first = Expr::parse(&e, s).unwrap();
        let text = first.print();
        let second = Expr::parse(&e, &text).unwrap();
        assert_eq!(first.eval(&e), second.eval(&e), "{} -> {}", s, text);
    }
}

#[test]
fn printing_text() {
    let e = engine();
    assert_eq!(Expr::parse(&e, "1-(2-3)").unwrap().print(), "1-(2-3)");
    assert_eq!(Expr::parse(&e, "(1-2)-3").unwrap().print(), "1-2-3");
    assert_eq!(tree_to_infix(&Expr::Number(Number::Rational(-1, 2))), "(-1/2)");
    assert_eq!(tree_to_latex(&Expr::parse(&e, "x/2").unwrap()), "\\frac{x}{2}");
    assert_eq!(Expr::parse(&e, "x^2*y").unwrap().print_latex(), "x^{2}\\cdot y");
    assert_eq!(Expr::parse(&e, "x+1").unwrap().print_debug(), "+ -> [ x, 1 ]");
}

#[test]
fn number_arithmetic() {
    let half = Number::Rational(1, 2);
    assert_eq!(half.add(Number::Rational(1, 3)), Some(Number::Rational(5, 6)));
    assert_eq!(half.sub(Number::Rational(1, 1)), Some(Number::Rational(-1, 2)));
    assert_eq!(half.div(Number::Rational(-1, 4)), Some(Number::Rational(-2, 1)));
    assert_eq!(half.div(Number::Rational(0, 1)), None);
    assert_eq!(Number::Rational(i64::MAX, 1).add(Number::Rational(1, 1)), None);
    assert_eq!(Number::Rational(i64::MIN, 1).neg(), None);
    assert_eq!(Number::Rational(2, 3).pow(Number::Rational(-2, 1)), Some(Number::Rational(9, 4)));
    assert_eq!(Number::Rational(-2, 1).pow(Number::Rational(3, 1)), Some(Number::Rational(-8, 1)));
    assert_eq!(Number::Rational(2, 1).pow(Number::Rational(64, 1)), None);
    assert_eq!(Number::Rational(0, 1).pow(Number::Rational(-1, 1)), None);
}

#[test]
fn decimal_literals_are_exact() {
    assert_eq!(Number::parse("5.0"), Ok(Number::Rational(5, 1)));
    assert_eq!(Number::parse("2.5"), Ok(Number::Rational(5, 2)));
    assert_eq!(Number::parse(".5"), Ok(Number::Rational(1, 2)));
    assert_eq!(Number::parse("."), Err(SymErr::NotANumber));
    assert_eq!(Number::parse("1x"), Err(SymErr::NotANumber));
    assert_eq!(Number::parse("99999999999999999999"), Err(SymErr::NotANumber));
}

#[test]
fn tokens_and_postfix() {
    let e = engine();
    assert_eq!(split_keep("12+ab*(3,4)"), vec!["12", "+", "ab", "*", "(", "3", "4", ")"]);
    assert_eq!(split_keep("1,2"), vec!["1", "2"]);
    assert_eq!(split_segments("1,2"), vec!["1", ",", "2"]);
    let infix = parse_infix(&e, "2 ** 3").unwrap();
    assert_eq!(
        infix,
        vec![
            Symbol::Number(Number::Rational(2, 1)),
            Symbol::Operator(Operator::Pow),
            Symbol::Number(Number::Rational(3, 1)),
        ]
    );
    let postfix = to_postfix(&e, &parse_infix(&e, "1-2-3").unwrap()).unwrap();
    assert_eq!(
        postfix,
        vec![
            Symbol::Number(Number::Rational(1, 1)),
            Symbol::Number(Number::Rational(2, 1)),
            Symbol::Operator(Operator::Sub),
            Symbol::Number(Number::Rational(3, 1)),
            Symbol::Operator(Operator::Sub),
        ]
    );
    let implicit = to_postfix(&e, &parse_infix(&e, "2(3)").unwrap()).unwrap();
    assert_eq!(implicit.last(), Some(&Symbol::Operator(Operator::Mul)));
}

#[test]
fn function_arguments_keep_their_order() {
    let e = engine();
    let t = Expr::parse(&e, "log(2, x)").unwrap();
    assert_eq!(t, Expr::function("log", vec![whole(2), var("x")]));
    assert_eq!(eval_tree(&e, &t), Ok(Expr::function("log", vec![whole(2), var("x")])));
}

#[test]
fn operator_table() {
    assert_eq!(Operator::Pow.precedence(), Ok(5));
    assert_eq!(Operator::Neg.precedence(), Ok(4));
    assert_eq!(Operator::LPa.precedence(), Err(SymErr::InvalidOP));
    assert_eq!(Operator::Pow.associativity(), Ok(Associativity::Right));
    assert_eq!(Operator::Sub.associativity(), Ok(Associativity::Left));
    assert_eq!(Operator::from('^'), Ok(Operator::Pow));
    assert_eq!(Operator::from('x'), Err(SymErr::InvalidOP));
    assert!(Operator::is_operator('('));
    assert!(!Operator::is_operator(','));
    assert!(Operator::RPa.is_parenthesis());
    assert_eq!(Operator::Div.to(), '/');
}

#[test]
fn builtins_registered() {
    let mut table: Vec<FunctionEntry> = Vec::new();
    all(&mut table);
    assert_eq!(table.len(), 12);
    let e = engine();
    assert_eq!(e.lookup("atan2"), Some(2));
    assert_eq!(e.lookup("rand"), Some(0));
    assert_eq!(Engine::new().lookup("ln"), None);
    assert_eq!(ln(&vec![whole(1)]), Ok(whole(0)));
    assert_eq!(ln(&vec![]), Err(SymErr::InvalidFunctionArgCount));
    assert_eq!(Simplifier::new().rules.len(), 27);
}

#[test]
fn engine_parse_infix_matches_expr_parse() {
    let e = engine();
    assert_eq!(e.parse_infix("1+2*x"), Expr::parse(&e, "1+2*x"));
    assert_eq!(e.parse_infix("(1"), Err(SymErr::ParenthesesMismatch));
}

#[test]
fn operate_and_builders() {
    assert_eq!(whole(2).operate(Operator::Add, Some(whole(3))), Ok(whole(5)));
    assert_eq!(whole(2).operate(Operator::Neg, None), Ok(whole(-2)));
    assert_eq!(whole(2).operate(Operator::Mul, None), Err(SymErr::InvalidFunctionArgCount));
    assert_eq!(whole(2).operate(Operator::LPa, None), Err(SymErr::InvalidOP));
    assert_eq!(whole(2).pow(whole(10)), whole(1024));
    assert_eq!(var("x").pow(whole(2)), op(Operator::Pow, var("x"), whole(2)));
}

#[test]
fn commas_separate_arguments() {
    let e = engine();
    let t = Expr::parse(&e, "log(2+1, 8)").unwrap();
    assert_eq!(
        t,
        Expr::function("log", vec![op(Operator::Add, whole(2), whole(1)), whole(8)])
    );
    assert_eq!(Expr::parse(&e, "log((2+1),8)"), Ok(t));
    assert_eq!(Expr::parse(&e, "log(2,-8)"), Err(SymErr::InvalidFunctionArgCount));
    let neg = Expr::parse(&e, "log(2,(-8))").unwrap();
    assert_eq!(neg, Expr::function("log", vec![whole(2), whole(-8)]));
    assert_eq!(neg.print(), "log(2, (-8))");
    assert_eq!(Expr::parse(&e, "atan2(1, (2))").unwrap().eval(&e).unwrap(),
        Expr::function("atan2", vec![whole(1), whole(2)]));
    assert_eq!(eval_str("1,2"), Err(SymErr::ParenthesesMismatch));
}

#[test]
fn call_round_trip_keeps_arguments() {
    let e = engine();
    for s in ["log((2+1),8)", "log(2, (-x))", "log(-2, 8)", "atan2(x*(y+1), 2-z)"] {
        let first = Expr::parse(&e, s).unwrap();
        let text = first.print();
        let second = Expr::parse(&e, &text).unwrap();
        assert_eq!(first.eval(&e), second.eval(&e), "{} -> {}", s, text);
    }
}

#[test]
fn signed_literals() {
    assert_eq!(Number::parse("-5"), Ok(Number::Rational(-5, 1)));
    assert_eq!(Number::parse("+5"), Ok(Number::Rational(5, 1)));
    assert_eq!(Number::parse("-9223372036854775808"), Ok(Number::Rational(i64::MIN, 1)));
    assert_eq!(Number::parse("9223372036854775808"), Err(SymErr::NotANumber));
    assert_eq!(Number::parse("-2.5"), Ok(Number::Rational(-5, 2)));
    assert_eq!(Number::parse("-"), Err(SymErr::NotANumber));
    assert_eq!(Number::parse("--5"), Err(SymErr::NotANumber));
}

#[test]
fn full_i64_range_results() {
    let min = Number::Rational(i64::MIN, 1);
    assert_eq!(min.add(Number::Rational(0, 1)), Some(min));
    assert_eq!(Number::Rational(i64::MIN + 1, 1).sub(Number::Rational(1, 1)), Some(min));
    assert_eq!(Number::Rational(-1, 2).add(Number::Rational(0, 1)), Some(Number::Rational(-1, 2)));
    assert_eq!(min.sub(Number::Rational(1, 1)), None);
}

#[test]
fn postfix_printing() {
    let e = engine();
    assert_eq!(Expr::parse(&e, "1+2*x").unwrap().print_postfix(), "1 2 x * +");
    assert_eq!(Expr::parse(&e, "-(x)").unwrap().print_postfix(), "x -");
    assert_eq!(Expr::parse(&e, "log(2, y)").unwrap().print_postfix(), "2 y log()");
}

#[test]
fn nested_expressions_stay_exact() {
    assert_eq!(eval_str("(1/3)*(3/7)-1/7"), Ok(whole(0)));
    assert_eq!(eval_str("-(2/6)+1"), Ok(Expr::Number(Number::Rational(2, 3))));
    assert_eq!(eval_str("(1/2)/(-3/4)"), Ok(Expr::Number(Number::Rational(-2, 3))));
}

#[test]
fn sign_only_after_start_paren_or_sign() {
    let e = engine();
    let t = parse_infix(&e, "1,-2").unwrap();
    assert_eq!(t[2], Symbol::Operator(Operator::Sub));
    let u = parse_infix(&e, "(-2)").unwrap();
    assert_eq!(u[1], Symbol::Operator(Operator::Neg));
}

#[test]
fn later_registration_wins() {
    let mut e = Engine::new();
    e.functions.push(FunctionEntry { name: "f".to_string(), arity: 1 });
    e.functions.push(FunctionEntry { name: "f".to_string(), arity: 2 });
    assert_eq!(e.lookup("f"), Some(2));
    assert_eq!(eval_str("ln(1)"), Ok(whole(0)));
    let twice = Engine::new().with_functions().with_functions();
    assert_eq!(twice.lookup("log"), Some(2));
}
