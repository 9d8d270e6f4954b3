use vstd::prelude::*;

verus! {

/// A number of the language: an IEEE 754 binary32 value, held as its bit
/// pattern. Reading numerals and doing arithmetic on them is the host's part.
#[derive(Clone, Copy, Debug, PartialEq, Eq, Structural)]
pub struct Number {
    pub bits: u32,
}

impl Number {
    pub fn from_bits(bits: u32) -> (r: Number)
        ensures
            r.bits == bits,
    {
        Number { bits }
    }
}

/// A value of the language. Values are duplicated on every read.
#[derive(Clone, Debug, PartialEq)]
pub enum Value {
    True,
    False,
    Nil,
    String(String),
    Number(Number),
    /// A callable supplied by the host, named by the host's handle.
    NativeFunction(u64),
}

impl Value {
    /// A copy of the value.
    pub fn duplicate(&self) -> (r: Value)
        ensures
            r == *self,
    {
        match self {
            Value::True => Value::True,
            Value::False => Value::False,
            Value::Nil => Value::Nil,
            Value::String(s) => Value::String(s.clone()),
            Value::Number(n) => Value::Number(*n),
            Value::NativeFunction(f) => Value::NativeFunction(*f),
        }
    }
}

/// An assignable place; only plain names exist so far.
#[derive(Clone, Debug, PartialEq)]
pub enum Variable {
    Name(String),
}

impl Variable {
    pub fn duplicate(&self) -> (r: Variable)
        ensures
            r == *self,
    {
        match self {
            Variable::Name(s) => Variable::Name(s.clone()),
        }
    }
}

/// A binary operator.
#[derive(Clone, Copy, Debug, PartialEq, Eq, Structural)]
pub enum Binop {
    Add,
    Sub,
    Div,
    Mul,
    Lt,
    Le,
    Eq,
    Gt,
    Ge,
    Neq,
}

impl Binop {
    /// The operators whose result is a truth value rather than a number.
    pub open spec fn spec_is_comparison(self) -> bool {
        match self {
            Binop::Add | Binop::Sub | Binop::Div | Binop::Mul => false,
            _ => true,
        }
    }

    #[verifier::when_used_as_spec(spec_is_comparison)]
    pub fn is_comparison(self) -> (r: bool)
        ensures
            r == self.spec_is_comparison(),
    {
        match self {
            Binop::Add | Binop::Sub | Binop::Div | Binop::Mul => false,
            _ => true,
        }
    }
}

/// A token of the language.
#[derive(Clone, Debug, PartialEq)]
pub enum Token {
    Equal,
    Variable(Variable),
    Constant(Value),
    Binop(Binop),
    OpeningParenthesis,
    ClosingParenthesis,
    ExpressionSeparator,
    If,
    ElseIf,
    Else,
    While,
    Local,
    StartBlock,
    EndBlock,
    Function,
}

impl Token {
    pub fn duplicate(&self) -> (r: Token)
        ensures
            r == *self,
    {
        match self {
            Token::Equal => Token::Equal,
            Token::Variable(v) => Token::Variable(v.duplicate()),
            Token::Constant(c) => Token::Constant(c.duplicate()),
            Token::Binop(b) => Token::Binop(*b),
            Token::OpeningParenthesis => Token::OpeningParenthesis,
            Token::ClosingParenthesis => Token::ClosingParenthesis,
            Token::ExpressionSeparator => Token::ExpressionSeparator,
            Token::If => Token::If,
            Token::ElseIf => Token::ElseIf,
            Token::Else => Token::Else,
            Token::While => Token::While,
            Token::Local => Token::Local,
            Token::StartBlock => Token::StartBlock,
            Token::EndBlock => Token::EndBlock,
            Token::Function => Token::Function,
        }
    }
}

} // verus!
