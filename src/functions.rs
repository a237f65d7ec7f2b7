use vstd::prelude::*;

use crate::engine::FunctionEntry;
use crate::expr::{Expr, Term, Tree, terms, result_view, lemma_children};
use crate::number::Number;
use crate::types::SymErr;
use vstd::string::{StrSliceExecFns, StringExecFns};

verus! {

/// The built-in functions with their arities.
pub open spec fn builtins() -> Seq<(Seq<char>, u8)> {
    seq![
        ("ln"@, 1u8),
        ("log"@, 2u8),
        ("sqrt"@, 1u8),
        ("root"@, 2u8),
        ("sin"@, 1u8),
        ("cos"@, 1u8),
        ("tan"@, 1u8),
        ("asin"@, 1u8),
        ("acos"@, 1u8),
        ("atan"@, 1u8),
        ("atan2"@, 2u8),
        ("rand"@, 0u8),
    ]
}

pub open spec fn entries_view(fns: Seq<FunctionEntry>) -> Seq<(Seq<char>, u8)> {
    Seq::new(fns.len(), |i: int| (fns[i].name@, fns[i].arity))
}

/// The natural logarithm where it is exact: `ln(1) = 0`, and no logarithm of
/// a number that is not positive. Anything else stays a call of `ln`.
pub open spec fn ln_of(args: Seq<Term>) -> Result<Term, SymErr> {
    if args.len() != 1 {
        Err(SymErr::InvalidFunctionArgCount)
    } else {
        match args[0] {
            Term::Number(n) => if n.wf() && n.num() <= 0 {
                Err(SymErr::Undefined)
            } else if n.num() == 1 && n.den() == 1 {
                Ok(Term::Number(Number::Rational(0, 1)))
            } else {
                Ok(Term::Function("ln"@, args))
            },
            _ => Ok(Term::Function("ln"@, args)),
        }
    }
}

/// Whether two strings hold the same characters.
pub fn same_text(a: &str, b: &str) -> (r: bool)
    ensures
        r == (a@ == b@),
{
    let n = a.unicode_len();
    if n != b.unicode_len() {
        return false;
    }
    let mut i: usize = 0;
    while i < n
        invariant
            n == a@.len() == b@.len(),
            i <= n,
            forall|j: int| 0 <= j < i ==> a@[j] == b@[j],
        decreases n - i,
    {
        if a.get_char(i) != b.get_char(i) {
            return false;
        }
        i = i + 1;
    }
    assert(a@ =~= b@);
    true
}

fn register(map: &mut Vec<FunctionEntry>, name: &str, arity: u8)
    ensures
        entries_view(final(map)@) == entries_view(old(map)@).push((name@, arity)),
{
    map.push(FunctionEntry { name: String::from_str(name), arity });
    assert(entries_view(final(map)@) =~= entries_view(old(map)@).push((name@, arity)));
}

/// Adds the built-in functions to `map`.
pub fn all(map: &mut Vec<FunctionEntry>)
    ensures
        entries_view(final(map)@) == entries_view(old(map)@) + builtins(),
{
    let ghost start = entries_view(map@);
    register(map, "ln", 1);
    register(map, "log", 2);
    register(map, "sqrt", 1);
    register(map, "root", 2);
    register(map, "sin", 1);
    register(map, "cos", 1);
    register(map, "tan", 1);
    register(map, "asin", 1);
    register(map, "acos", 1);
    register(map, "atan", 1);
    register(map, "atan2", 2);
    register(map, "rand", 0);
    assert(entries_view(map@) =~= start + builtins());
}

/// `ln` on evaluated arguments.
pub fn ln(arguments: &Vec<Expr>) -> (r: Result<Expr, SymErr>)
    ensures
        result_view(r) == ln_of(terms(arguments@)),
{
    if arguments.len() != 1 {
        return Err(SymErr::InvalidFunctionArgCount);
    }
    if let Expr::Number(Number::Rational(n, d)) = &arguments[0] {
        if *d > 0 && *n <= 0 {
            return Err(SymErr::Undefined);
        } else if *n == 1 && *d == 1 {
            return Ok(Expr::Number(Number::Rational(0, 1)));
        }
    }
    let r = Expr::Function(
        Tree { value: String::from_str("ln"), next: crate::expr::duplicate_all(arguments) },
    );
    proof {
        lemma_children(&r);
    }
    Ok(r)
}

} // verus!
