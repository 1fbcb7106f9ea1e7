//! The tokens of the calculator's language and how many operands each consumes.
use crate::execution::Object;
use num_rational::BigRational;
use vstd::prelude::*;

verus! {

/// One token of source text.
pub enum Token {
    /// A name: a variable, a function or an iterative.
    Identifier(String),
    /// `=name`: bind the value of the expression on top of the stack.
    AssignVariable(String),
    /// `name|N`: define a function of `N` arguments.
    AssignFunction(String, usize),
    /// `name@N`: define an iterative of `N` arguments.
    AssignIterative(String, usize),
    /// `$N`: the `N`-th argument of the enclosing function.
    Argument(usize),
    /// An exact rational constant.
    Number(BigRational),
    Minus,
    Plus,
    Times,
    Divide,
    PositiveMinus,
    IntegerDiv,
    Exp,
    ExpMod,
    If,
    Return,
    Partial,
    Print,
    Flush,
    Duplicate,
    Drop,
    Empty,
    Format,
    Approx,
    /// Text that is no token.
    Error,
}

/// The number of arguments a table entry takes when it is called.
pub open spec fn name_arity(table: Map<Seq<char>, Object>, name: Seq<char>) -> nat {
    if table.contains_key(name) {
        table[name].arity()
    } else {
        0
    }
}

impl Token {
    /// Binary arithmetic operators.
    pub open spec fn is_binary(self) -> bool {
        match self {
            Token::Plus | Token::Minus | Token::Times | Token::Divide | Token::PositiveMinus
            | Token::IntegerDiv | Token::Exp => true,
            _ => false,
        }
    }

    /// Tokens that form expressions and may stand on the stack.
    pub open spec fn is_operand(self) -> bool {
        match self {
            Token::Identifier(_) | Token::Number(_) | Token::Argument(_) | Token::If
            | Token::ExpMod => true,
            _ => self.is_binary(),
        }
    }

    /// How many operands the token consumes, under a table.
    pub open spec fn arity_in(self, table: Map<Seq<char>, Object>) -> nat {
        match self {
            Token::Identifier(name) => name_arity(table, name@),
            Token::If | Token::ExpMod => 3,
            _ => if self.is_binary() {
                2
            } else {
                0
            },
        }
    }

    /// How many operands the token consumes while the extractor runs: as under the
    /// table, except that the name being defined, if any, has the arity that its
    /// definition declares.
    pub open spec fn arity(self, table: Map<Seq<char>, Object>, own: Option<(Seq<char>, nat)>) -> nat {
        match self {
            Token::Identifier(name) => match own {
                Some(o) => if o.0 == name@ {
                    o.1
                } else {
                    name_arity(table, name@)
                },
                None => name_arity(table, name@),
            },
            _ => self.arity_in(table),
        }
    }
}

} // verus!
