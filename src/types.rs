use vstd::prelude::*;

verus! {

/// The ways in which parsing and evaluation can fail.
#[derive(Clone, Copy, Debug, PartialEq, Eq, Structural)]
pub enum SymErr {
    StackEmpty,
    NotANumber,
    InvalidOP,
    InvalidSign,
    UnknownFunction,
    InvalidFunctionArgCount,
    ParenthesesMismatch,
    StackNotLengthOne,
    Inconvertible,
    Undefined,
}

/// Operators, including the unary signs and the two parentheses.
#[derive(Clone, Copy, Debug, PartialEq, Eq, Structural)]
pub enum Operator {
    /// unary `+`
    Pos,
    /// unary `-`
    Neg,
    Add,
    Sub,
    Mul,
    Div,
    Pow,
    LPa,
    RPa,
}

#[derive(Clone, Copy, Debug, PartialEq, Eq, Structural)]
pub enum Associativity {
    Left,
    Right,
}

/// The binding strength of each operator; parentheses have none.
pub open spec fn precedence_of(op: Operator) -> Option<u8> {
    match op {
        Operator::Pos | Operator::Neg => Some(4u8),
        Operator::Add | Operator::Sub => Some(2u8),
        Operator::Mul | Operator::Div => Some(3u8),
        Operator::Pow => Some(5u8),
        Operator::LPa | Operator::RPa => None,
    }
}

pub open spec fn char_of(op: Operator) -> char {
    match op {
        Operator::Pos => 'p',
        Operator::Neg => 'n',
        Operator::Add => '+',
        Operator::Sub => '-',
        Operator::Mul => '*',
        Operator::Div => '/',
        Operator::Pow => '^',
        Operator::LPa => '(',
        Operator::RPa => ')',
    }
}

pub open spec fn is_operator_char(c: char) -> bool {
    c == '+' || c == '-' || c == '*' || c == '/' || c == '^' || c == '(' || c == ')'
}

/// The binary operator or parenthesis that a character denotes.
pub open spec fn operator_of(c: char) -> Option<Operator> {
    if c == '+' {
        Some(Operator::Add)
    } else if c == '-' {
        Some(Operator::Sub)
    } else if c == '*' {
        Some(Operator::Mul)
    } else if c == '/' {
        Some(Operator::Div)
    } else if c == '^' {
        Some(Operator::Pow)
    } else if c == '(' {
        Some(Operator::LPa)
    } else if c == ')' {
        Some(Operator::RPa)
    } else {
        None
    }
}

pub open spec fn is_unary(op: Operator) -> bool {
    op == Operator::Pos || op == Operator::Neg
}

impl Operator {
    pub fn is_parenthesis(&self) -> (r: bool)
        ensures
            r == (*self == Operator::LPa || *self == Operator::RPa),
    {
        *self == Operator::LPa || *self == Operator::RPa
    }

    pub fn precedence(&self) -> (r: Result<u8, SymErr>)
        ensures
            r == (match precedence_of(*self) {
                Some(p) => Ok::<u8, SymErr>(p),
                None => Err(SymErr::InvalidOP),
            }),
    {
        match self {
            Operator::Pos => Ok(4),
            Operator::Neg => Ok(4),
            Operator::Add => Ok(2),
            Operator::Sub => Ok(2),
            Operator::Div => Ok(3),
            Operator::Mul => Ok(3),
            Operator::Pow => Ok(5),
            _ => Err(SymErr::InvalidOP),
        }
    }

    /// `^` groups to the right, every other operator to the left.
    pub fn associativity(&self) -> (r: Result<Associativity, SymErr>)
        ensures
            r == (if *self == Operator::LPa || *self == Operator::RPa {
                Err::<Associativity, SymErr>(SymErr::InvalidOP)
            } else if *self == Operator::Pow {
                Ok(Associativity::Right)
            } else {
                Ok(Associativity::Left)
            }),
    {
        match self {
            Operator::LPa | Operator::RPa => Err(SymErr::InvalidOP),
            Operator::Pow => Ok(Associativity::Right),
            _ => Ok(Associativity::Left),
        }
    }

    /// The character that stands for the operator (`p` and `n` for the signs).
    pub fn to(&self) -> (r: char)
        ensures
            r == char_of(*self),
    {
        match self {
            Operator::Pos => 'p',
            Operator::Neg => 'n',
            Operator::Add => '+',
            Operator::Sub => '-',
            Operator::Div => '/',
            Operator::Mul => '*',
            Operator::Pow => '^',
            Operator::LPa => '(',
            Operator::RPa => ')',
        }
    }

    pub fn from(c: char) -> (r: Result<Operator, SymErr>)
        ensures
            r == (match operator_of(c) {
                Some(op) => Ok::<Operator, SymErr>(op),
                None => Err(SymErr::InvalidOP),
            }),
    {
        match c {
            '+' => Ok(Operator::Add),
            '-' => Ok(Operator::Sub),
            '*' => Ok(Operator::Mul),
            '/' => Ok(Operator::Div),
            '^' => Ok(Operator::Pow),
            '(' => Ok(Operator::LPa),
            ')' => Ok(Operator::RPa),
            _ => Err(SymErr::InvalidOP),
        }
    }

    pub fn is_operator(c: char) -> (r: bool)
        ensures
            r == is_operator_char(c),
    {
        c == '+' || c == '-' || c == '*' || c == '/' || c == '^' || c == '(' || c == ')'
    }
}

} // verus!
