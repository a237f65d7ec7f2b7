use vstd::prelude::*;

use crate::functions;
use crate::simplifier::{Simplifier, rule_table};

verus! {

/// A registered function: its name and how many arguments it takes.
pub struct FunctionEntry {
    pub name: String,
    pub arity: u8,
}

/// The configuration shared by parsing, evaluation and simplification.
pub struct Engine {
    pub functions: Vec<FunctionEntry>,
    pub simplifier: Simplifier,
    pub debugging: bool,
}

/// The arity under which `name` was last registered in `fns`: a later
/// registration of a name replaces an earlier one.
pub open spec fn arity_in(fns: Seq<FunctionEntry>, name: Seq<char>) -> Option<u8>
    decreases fns.len(),
{
    if fns.len() == 0 {
        None
    } else if fns.last().name@ == name {
        Some(fns.last().arity)
    } else {
        arity_in(fns.drop_last(), name)
    }
}

impl Engine {
    pub open spec fn arity_of(&self, name: Seq<char>) -> Option<u8> {
        arity_in(self.functions@, name)
    }

    /// An engine with no functions and debugging off.
    pub fn new() -> (r: Engine)
        ensures
            r.functions@.len() == 0,
            r.simplifier@ == rule_table(),
            !r.debugging,
    {
        Engine { functions: Vec::new(), simplifier: Simplifier::new(), debugging: false }
    }

    /// Turns on trace output; results never depend on it.
    pub fn with_debugging(self) -> (r: Engine)
        ensures
            r.debugging,
            r.functions@ == self.functions@,
            r.simplifier@ == self.simplifier@,
    {
        let mut e = self;
        e.debugging = true;
        e
    }

    /// Registers the built-in functions.
    pub fn with_functions(self) -> (r: Engine)
        ensures
            functions::entries_view(r.functions@) == functions::entries_view(self.functions@)
                + functions::builtins(),
            r.debugging == self.debugging,
            r.simplifier@ == self.simplifier@,
    {
        let mut e = self;
        functions::all(&mut e.functions);
        e
    }

    /// The arity of a registered function.
    pub fn lookup(&self, name: &str) -> (r: Option<u8>)
        ensures
            r == self.arity_of(name@),
    {
        let mut i: usize = self.functions.len();
        assert(self.functions@.take(i as int) =~= self.functions@);
        while i > 0
            invariant
                i <= self.functions@.len(),
                arity_in(self.functions@, name@) == arity_in(self.functions@.take(i as int), name@),
            decreases i,
        {
            let ghost rest = self.functions@.take(i as int);
            assert(rest.drop_last() =~= self.functions@.take(i - 1));
            assert(rest.last() == self.functions@[i - 1]);
            if crate::functions::same_text(self.functions[i - 1].name.as_str(), name) {
                return Some(self.functions[i - 1].arity);
            }
            i = i - 1;
        }
        None
    }
}

} // verus!
