use vstd::prelude::*;
use crate::value::{Binop, Token, Value, Variable};
use crate::lexer::{fragments, tokens_of, Tokenizer};
use crate::value::Number;

verus! {

broadcast use vstd::std_specs::vec::group_vec_axioms;

/// An expression of the language.
#[derive(Debug, PartialEq)]
pub enum Expression {
    Constant(Value),
    Variable(Variable),
    FunctionCall(Box<Expression>, Vec<Expression>),
    Binop(Binop, Box<Expression>, Box<Expression>),
}

/// A statement of the language.
#[derive(Debug, PartialEq)]
pub enum Statement {
    Assignment(Variable, Expression),
    SetLocal(Variable),
    FunctionCall(Box<Expression>, Vec<Expression>),
    Block(Vec<Statement>),
    While(Expression, Vec<Statement>),
    If(Expression, Vec<Statement>, Vec<Statement>),
}

/// The mathematical form of an expression.
pub enum Expr {
    Constant(Value),
    Variable(Variable),
    Call(Box<Expr>, Seq<Expr>),
    Binop(Binop, Box<Expr>, Box<Expr>),
}

/// The mathematical form of a statement.
pub enum Stmt {
    Assignment(Variable, Expr),
    SetLocal(Variable),
    Call(Box<Expr>, Seq<Expr>),
    Block(Seq<Stmt>),
    While(Expr, Seq<Stmt>),
    If(Expr, Seq<Stmt>, Seq<Stmt>),
}

/// Why a statement could not be parsed.
#[derive(Clone, Copy, Debug, PartialEq, Eq, Structural)]
pub enum ParseError {
    /// `local` not followed by a name.
    NameExpected,
    /// A token that cannot start or continue a statement.
    UnexpectedSymbol,
    /// A name at the end of the input.
    InvalidSyntax,
    /// No expression where one is needed.
    ExpressionExpected,
    /// An argument list that is neither continued by `,` nor closed by `)`.
    MalformedCall,
    /// A `while` whose body is not a `do ... end` block.
    MalformedWhile,
    /// An `if` whose condition is not followed by `do`.
    MalformedIf,
    /// A block that the input ends inside of.
    UnclosedBlock,
}

impl Expression {
    pub open spec fn view(&self) -> Expr
        decreases self,
    {
        match self {
            Expression::Constant(c) => Expr::Constant(*c),
            Expression::Variable(v) => Expr::Variable(*v),
            Expression::FunctionCall(f, args) => Expr::Call(
                Box::new(f.view()),
                Seq::new(args.len() as nat, |i: int| if 0 <= i < args.len() { args[i].view() } else { Expr::Constant(Value::Nil) }),
            ),
            Expression::Binop(op, l, r) => Expr::Binop(*op, Box::new(l.view()), Box::new(r.view())),
        }
    }
}


impl Statement {
    pub open spec fn view(&self) -> Stmt
        decreases self,
    {
        match self {
            Statement::Assignment(v, e) => Stmt::Assignment(*v, e.view()),
            Statement::SetLocal(v) => Stmt::SetLocal(*v),
            Statement::FunctionCall(f, args) => Stmt::Call(
                Box::new(f.view()),
                Seq::new(args.len() as nat, |i: int| if 0 <= i < args.len() { args[i].view() } else { Expr::Constant(Value::Nil) }),
            ),
            Statement::Block(b) => Stmt::Block(
                Seq::new(b.len() as nat, |i: int| if 0 <= i < b.len() { b[i].view() } else { Stmt::Block(Seq::empty()) }),
            ),
            Statement::While(c, b) => Stmt::While(
                c.view(),
                Seq::new(b.len() as nat, |i: int| if 0 <= i < b.len() { b[i].view() } else { Stmt::Block(Seq::empty()) }),
            ),
            Statement::If(c, a, b) => Stmt::If(
                c.view(),
                Seq::new(a.len() as nat, |i: int| if 0 <= i < a.len() { a[i].view() } else { Stmt::Block(Seq::empty()) }),
                Seq::new(b.len() as nat, |i: int| if 0 <= i < b.len() { b[i].view() } else { Stmt::Block(Seq::empty()) }),
            ),
        }
    }
}

pub open spec fn exprs_view(v: Seq<Expression>) -> Seq<Expr> {
    Seq::new(v.len(), |i: int| v[i].view())
}

pub open spec fn stmts_view(v: Seq<Statement>) -> Seq<Stmt> {
    Seq::new(v.len(), |i: int| v[i].view())
}

pub open spec fn starts_with_binop(t: Seq<Token>) -> bool {
    t.len() > 0 && t[0] is Binop
}

pub open spec fn starts_with(t: Seq<Token>, k: Token) -> bool {
    t.len() > 0 && t[0] == k
}

/// Parses an expression at the front of `t`: a constant or a name, then a
/// call's argument list after a name, or an operator and, right-associated,
/// the rest of the expression. Gives the result and the tokens after it.
pub open spec fn parse_expr(t: Seq<Token>) -> (Result<Expr, ParseError>, Seq<Token>)
    decreases t.len(), 1int,
{
    if t.len() == 0 {
        (Err(ParseError::ExpressionExpected), t)
    } else {
        let t1 = t.drop_first();
        match t[0] {
            Token::Constant(c) => {
                if starts_with_binop(t1) {
                    let (r, t2) = parse_expr(t1.drop_first());
                    match r {
                        Ok(e) => (Ok(Expr::Binop(t1[0]->Binop_0, Box::new(Expr::Constant(c)), Box::new(e))), t2),
                        Err(x) => (Err(x), t2),
                    }
                } else {
                    (Ok(Expr::Constant(c)), t1)
                }
            },
            Token::Variable(v) => {
                if starts_with(t1, Token::OpeningParenthesis) {
                    let (r, t2) = parse_call_args(t1.drop_first());
                    match r {
                        Ok(args) => (Ok(Expr::Call(Box::new(Expr::Variable(v)), args)), t2),
                        Err(x) => (Err(x), t2),
                    }
                } else if starts_with_binop(t1) {
                    let (r, t2) = parse_expr(t1.drop_first());
                    match r {
                        Ok(e) => (Ok(Expr::Binop(t1[0]->Binop_0, Box::new(Expr::Variable(v)), Box::new(e))), t2),
                        Err(x) => (Err(x), t2),
                    }
                } else {
                    (Ok(Expr::Variable(v)), t1)
                }
            },
            _ => (Err(ParseError::ExpressionExpected), t1),
        }
    }
}

/// Parses a call's arguments after its `(`, up to and including the `)`.
pub open spec fn parse_call_args(t: Seq<Token>) -> (Result<Seq<Expr>, ParseError>, Seq<Token>)
    decreases t.len(), 3int,
{
    if starts_with(t, Token::ClosingParenthesis) {
        (Ok(Seq::empty()), t.drop_first())
    } else {
        parse_args_from(t, Seq::empty())
    }
}

/// Parses the arguments that follow `acc`, each ended by `,` or, for the
/// last, by `)`.
pub open spec fn parse_args_from(t: Seq<Token>, acc: Seq<Expr>) -> (Result<Seq<Expr>, ParseError>, Seq<Token>)
    decreases t.len(), 2int,
{
    let (r, t1) = parse_expr(t);
    match r {
        Err(x) => (Err(x), t1),
        Ok(e) => {
            if starts_with(t1, Token::ClosingParenthesis) {
                (Ok(acc.push(e)), t1.drop_first())
            } else if starts_with(t1, Token::ExpressionSeparator) && t1.len() <= t.len() {
                parse_args_from(t1.drop_first(), acc.push(e))
            } else {
                (Err(ParseError::MalformedCall), t1)
            }
        },
    }
}

/// Parses the next statement at the front of `t`; `None` where `t` is empty.
pub open spec fn parse_stmt(t: Seq<Token>) -> Option<(Result<Stmt, ParseError>, Seq<Token>)>
    decreases t.len(), 5int,
{
    if t.len() == 0 {
        None
    } else {
        let t1 = t.drop_first();
        match t[0] {
            Token::StartBlock => {
                let (r, t2) = parse_block_body(t1, Seq::empty());
                match r {
                    Ok(b) => Some((Ok(Stmt::Block(b)), t2)),
                    Err(x) => Some((Err(x), t2)),
                }
            },
            Token::Local => {
                if t1.len() > 0 && t1[0] is Variable {
                    Some((Ok(Stmt::SetLocal(t1[0]->Variable_0)), t1))
                } else {
                    Some((Err(ParseError::NameExpected), t1))
                }
            },
            Token::Variable(v) => {
                if t1.len() == 0 {
                    Some((Err(ParseError::InvalidSyntax), t1))
                } else {
                    let t2 = t1.drop_first();
                    match t1[0] {
                        Token::Equal => {
                            let (r, t3) = parse_expr(t2);
                            match r {
                                Ok(e) => Some((Ok(Stmt::Assignment(v, e)), t3)),
                                Err(x) => Some((Err(x), t3)),
                            }
                        },
                        Token::OpeningParenthesis => {
                            let (r, t3) = parse_call_args(t2);
                            match r {
                                Ok(args) => Some((Ok(Stmt::Call(Box::new(Expr::Variable(v)), args)), t3)),
                                Err(x) => Some((Err(x), t3)),
                            }
                        },
                        _ => Some((Err(ParseError::UnexpectedSymbol), t2)),
                    }
                }
            },
            Token::While => {
                let (rc, t2) = parse_expr(t1);
                match rc {
                    Err(x) => Some((Err(x), t2)),
                    Ok(c) => {
                        if t2.len() >= t.len() {
                            Some((Err(ParseError::MalformedWhile), t2))
                        } else {
                            match parse_stmt(t2) {
                                Some((Ok(Stmt::Block(body)), t3)) => Some((Ok(Stmt::While(c, body)), t3)),
                                Some((_, t3)) => Some((Err(ParseError::MalformedWhile), t3)),
                                None => Some((Err(ParseError::MalformedWhile), t2)),
                            }
                        }
                    },
                }
            },
            Token::If => {
                let (rc, t2) = parse_expr(t1);
                match rc {
                    Err(x) => Some((Err(x), t2)),
                    Ok(c) => {
                        if starts_with(t2, Token::StartBlock) && t2.len() <= t1.len() {
                            let (r, t3) = parse_if_body(t2.drop_first(), Seq::empty());
                            match r {
                                Ok((a, b)) => Some((Ok(Stmt::If(c, a, b)), t3)),
                                Err(x) => Some((Err(x), t3)),
                            }
                        } else if t2.len() > 0 {
                            Some((Err(ParseError::MalformedIf), t2.drop_first()))
                        } else {
                            Some((Err(ParseError::MalformedIf), t2))
                        }
                    },
                }
            },
            _ => Some((Err(ParseError::UnexpectedSymbol), t1)),
        }
    }
}

/// Parses the statements of a block after `acc`, up to and including its `end`.
pub open spec fn parse_block_body(t: Seq<Token>, acc: Seq<Stmt>) -> (Result<Seq<Stmt>, ParseError>, Seq<Token>)
    decreases t.len(), 6int,
{
    if t.len() == 0 {
        (Err(ParseError::UnclosedBlock), t)
    } else if t[0] == Token::EndBlock {
        (Ok(acc), t.drop_first())
    } else {
        match parse_stmt(t) {
            Some((Ok(s), t1)) => {
                if t1.len() < t.len() {
                    parse_block_body(t1, acc.push(s))
                } else {
                    (Err(ParseError::UnclosedBlock), t1)
                }
            },
            Some((Err(x), t1)) => (Err(x), t1),
            None => (Err(ParseError::UnclosedBlock), t),
        }
    }
}

/// Parses the branches of an `if` after its `do`: the statements that
/// follow `acc` up to `else` or `end`, then, after `else`, a block body.
pub open spec fn parse_if_body(t: Seq<Token>, acc: Seq<Stmt>) -> (Result<(Seq<Stmt>, Seq<Stmt>), ParseError>, Seq<Token>)
    decreases t.len(), 6int,
{
    if t.len() == 0 {
        (Err(ParseError::UnclosedBlock), t)
    } else if t[0] == Token::Else {
        let (r, t1) = parse_block_body(t.drop_first(), Seq::empty());
        match r {
            Ok(b) => (Ok((acc, b)), t1),
            Err(x) => (Err(x), t1),
        }
    } else if t[0] == Token::EndBlock {
        (Ok((acc, Seq::empty())), t.drop_first())
    } else {
        match parse_stmt(t) {
            Some((Ok(s), t1)) => {
                if t1.len() < t.len() {
                    parse_if_body(t1, acc.push(s))
                } else {
                    (Err(ParseError::UnclosedBlock), t1)
                }
            },
            Some((Err(x), t1)) => (Err(x), t1),
            None => (Err(ParseError::UnclosedBlock), t),
        }
    }
}

pub open spec fn expr_result(r: Result<Expression, ParseError>) -> Result<Expr, ParseError> {
    match r {
        Ok(e) => Ok(e@),
        Err(x) => Err(x),
    }
}

pub open spec fn exprs_result(r: Result<Vec<Expression>, ParseError>) -> Result<Seq<Expr>, ParseError> {
    match r {
        Ok(v) => Ok(exprs_view(v@)),
        Err(x) => Err(x),
    }
}

pub open spec fn stmt_result(r: Result<Statement, ParseError>) -> Result<Stmt, ParseError> {
    match r {
        Ok(s) => Ok(s@),
        Err(x) => Err(x),
    }
}

pub open spec fn stmts_result(r: Result<Vec<Statement>, ParseError>) -> Result<Seq<Stmt>, ParseError> {
    match r {
        Ok(v) => Ok(stmts_view(v@)),
        Err(x) => Err(x),
    }
}

pub open spec fn branches_result(r: Result<(Vec<Statement>, Vec<Statement>), ParseError>) -> Result<(Seq<Stmt>, Seq<Stmt>), ParseError> {
    match r {
        Ok((a, b)) => Ok((stmts_view(a@), stmts_view(b@))),
        Err(x) => Err(x),
    }
}

/// The statements that parse from `t`, in order, skipping those that fail.
pub open spec fn parse_all(t: Seq<Token>) -> Seq<Stmt>
    decreases t.len(),
{
    match parse_stmt(t) {
        None => Seq::empty(),
        Some((r, rest)) => {
            if rest.len() < t.len() {
                match r {
                    Ok(s) => seq![s] + parse_all(rest),
                    Err(_) => parse_all(rest),
                }
            } else {
                Seq::empty()
            }
        },
    }
}

proof fn lemma_call_view(v: Variable, args: Vec<Expression>)
    ensures
        Expression::FunctionCall(Box::new(Expression::Variable(v)), args)@
            == Expr::Call(Box::new(Expr::Variable(v)), exprs_view(args@)),
        Statement::FunctionCall(Box::new(Expression::Variable(v)), args)@
            == Stmt::Call(Box::new(Expr::Variable(v)), exprs_view(args@)),
{
    let e = Expression::FunctionCall(Box::new(Expression::Variable(v)), args);
    let s = Statement::FunctionCall(Box::new(Expression::Variable(v)), args);
    assert(e@->Call_1 =~= exprs_view(args@));
    assert(s@->Call_1 =~= exprs_view(args@));
}

pub proof fn lemma_block_view(b: Vec<Statement>)
    ensures
        Statement::Block(b)@ == Stmt::Block(stmts_view(b@)),
{
    assert(Statement::Block(b)@->Block_0 =~= stmts_view(b@));
}

pub proof fn lemma_while_view(c: Expression, b: Vec<Statement>)
    ensures
        Statement::While(c, b)@ == Stmt::While(c@, stmts_view(b@)),
{
    assert(Statement::While(c, b)@->While_1 =~= stmts_view(b@));
}

pub proof fn lemma_if_view(c: Expression, a: Vec<Statement>, b: Vec<Statement>)
    ensures
        Statement::If(c, a, b)@ == Stmt::If(c@, stmts_view(a@), stmts_view(b@)),
{
    assert(Statement::If(c, a, b)@->If_1 =~= stmts_view(a@));
    assert(Statement::If(c, a, b)@->If_2 =~= stmts_view(b@));
}

/// Parses statements from a token sequence, one at a time.
pub struct StatementBuilder {
    tokens: Tokenizer,
}

impl StatementBuilder {
    pub closed spec fn wf(&self) -> bool {
        self.tokens.wf()
    }

    /// The tokens not consumed yet.
    pub closed spec fn remaining(&self) -> Seq<Token> {
        self.tokens.remaining()
    }

    pub fn new(tokens: Tokenizer) -> (r: StatementBuilder)
        requires
            tokens.wf(),
        ensures
            r.wf(),
            r.remaining() == tokens.remaining(),
    {
        StatementBuilder { tokens }
    }

    fn build_expression(&mut self) -> (r: Result<Expression, ParseError>)
        requires
            old(self).wf(),
        ensures
            final(self).wf(),
            expr_result(r) == parse_expr(old(self).remaining()).0,
            final(self).remaining() == parse_expr(old(self).remaining()).1,
            final(self).remaining().len() <= old(self).remaining().len(),
            old(self).remaining().len() > 0 ==> final(self).remaining().len() < old(self).remaining().len(),
        decreases old(self).remaining().len(), 1int,
    {
        match self.tokens.next() {
            None => Err(ParseError::ExpressionExpected),
            Some(Token::Constant(c)) => {
                match self.tokens.peek() {
                    Some(Token::Binop(op)) => {
                        self.tokens.next();
                        match self.build_expression() {
                            Ok(e) => {
                                let r = Expression::Binop(op, Box::new(Expression::Constant(c)), Box::new(e));
                                assert(Expression::Constant(c)@ == Expr::Constant(c));
                                Ok(r)
                            },
                            Err(x) => Err(x),
                        }
                    },
                    _ => Ok(Expression::Constant(c)),
                }
            },
            Some(Token::Variable(v)) => {
                match self.tokens.peek() {
                    Some(Token::OpeningParenthesis) => {
                        self.tokens.next();
                        match self.call_args() {
                            Ok(args) => {
                                proof { lemma_call_view(v, args); }
                                Ok(Expression::FunctionCall(Box::new(Expression::Variable(v)), args))
                            },
                            Err(x) => Err(x),
                        }
                    },
                    Some(Token::Binop(op)) => {
                        self.tokens.next();
                        match self.build_expression() {
                            Ok(e) => {
                                let r = Expression::Binop(op, Box::new(Expression::Variable(v)), Box::new(e));
                                assert(Expression::Variable(v)@ == Expr::Variable(v));
                                Ok(r)
                            },
                            Err(x) => Err(x),
                        }
                    },
                    _ => Ok(Expression::Variable(v)),
                }
            },
            Some(_) => Err(ParseError::ExpressionExpected),
        }
    }

    /// Parses a call's arguments after its `(`.
    fn call_args(&mut self) -> (r: Result<Vec<Expression>, ParseError>)
        requires
            old(self).wf(),
        ensures
            final(self).wf(),
            exprs_result(r) == parse_call_args(old(self).remaining()).0,
            final(self).remaining() == parse_call_args(old(self).remaining()).1,
            final(self).remaining().len() <= old(self).remaining().len(),
        decreases old(self).remaining().len(), 3int,
    {
        let ghost t0 = self.remaining();
        if let Some(Token::ClosingParenthesis) = self.tokens.peek() {
            self.tokens.next();
            proof { assert(exprs_view(Seq::<Expression>::empty()) =~= Seq::empty()); }
            return Ok(Vec::new());
        }
        let mut args: Vec<Expression> = Vec::new();
        proof { assert(exprs_view(args@) =~= Seq::empty()); }
        loop
            invariant
                self.wf(),
                t0 == old(self).remaining(),
                parse_call_args(t0) == parse_args_from(self.remaining(), exprs_view(args@)),
                self.remaining().len() <= t0.len(),
            decreases self.remaining().len(),
        {
            let ghost acc = exprs_view(args@);
            match self.build_expression() {
                Err(x) => return Err(x),
                Ok(e) => {
                    let ghost ev = e@;
                    args.push(e);
                    proof { assert(exprs_view(args@) =~= acc.push(ev)); }
                    match self.tokens.peek() {
                        Some(Token::ClosingParenthesis) => {
                            self.tokens.next();
                            return Ok(args);
                        },
                        Some(Token::ExpressionSeparator) => {
                            self.tokens.next();
                        },
                        _ => return Err(ParseError::MalformedCall),
                    }
                },
            }
        }
    }

    /// Parses the next statement; `None` once no token is left.
    pub fn next(&mut self) -> (r: Option<Result<Statement, ParseError>>)
        requires
            old(self).wf(),
        ensures
            final(self).wf(),
            match parse_stmt(old(self).remaining()) {
                None => r is None && final(self).remaining() == old(self).remaining(),
                Some((sr, rest)) => r is Some && stmt_result(r->0) == sr && final(self).remaining() == rest
                    && rest.len() < old(self).remaining().len(),
            },
        decreases old(self).remaining().len(), 5int,
    {
        match self.tokens.next() {
            None => None,
            Some(Token::StartBlock) => {
                match self.block_body() {
                    Ok(b) => {
                        proof { lemma_block_view(b); }
                        Some(Ok(Statement::Block(b)))
                    },
                    Err(x) => Some(Err(x)),
                }
            },
            Some(Token::Local) => {
                match self.tokens.peek() {
                    Some(Token::Variable(v)) => Some(Ok(Statement::SetLocal(v))),
                    _ => Some(Err(ParseError::NameExpected)),
                }
            },
            Some(Token::Variable(v)) => {
                match self.tokens.next() {
                    None => Some(Err(ParseError::InvalidSyntax)),
                    Some(Token::Equal) => {
                        match self.build_expression() {
                            Ok(e) => Some(Ok(Statement::Assignment(v, e))),
                            Err(x) => Some(Err(x)),
                        }
                    },
                    Some(Token::OpeningParenthesis) => {
                        match self.call_args() {
                            Ok(args) => {
                                proof { lemma_call_view(v, args); }
                                Some(Ok(Statement::FunctionCall(Box::new(Expression::Variable(v)), args)))
                            },
                            Err(x) => Some(Err(x)),
                        }
                    },
                    Some(_) => Some(Err(ParseError::UnexpectedSymbol)),
                }
            },
            Some(Token::While) => {
                match self.build_expression() {
                    Err(x) => Some(Err(x)),
                    Ok(c) => {
                        match self.next() {
                            Some(Ok(Statement::Block(body))) => {
                                proof { lemma_while_view(c, body); lemma_block_view(body); }
                                Some(Ok(Statement::While(c, body)))
                            },
                            _ => Some(Err(ParseError::MalformedWhile)),
                        }
                    },
                }
            },
            Some(Token::If) => {
                match self.build_expression() {
                    Err(x) => Some(Err(x)),
                    Ok(c) => {
                        match self.tokens.next() {
                            Some(Token::StartBlock) => {
                                match self.if_body() {
                                    Ok((a, b)) => {
                                        proof { lemma_if_view(c, a, b); }
                                        Some(Ok(Statement::If(c, a, b)))
                                    },
                                    Err(x) => Some(Err(x)),
                                }
                            },
                            _ => Some(Err(ParseError::MalformedIf)),
                        }
                    },
                }
            },
            Some(_) => Some(Err(ParseError::UnexpectedSymbol)),
        }
    }

    /// Parses the statements of a block after its `do`, and its `end`.
    fn block_body(&mut self) -> (r: Result<Vec<Statement>, ParseError>)
        requires
            old(self).wf(),
        ensures
            final(self).wf(),
            stmts_result(r) == parse_block_body(old(self).remaining(), Seq::empty()).0,
            final(self).remaining() == parse_block_body(old(self).remaining(), Seq::empty()).1,
            final(self).remaining().len() <= old(self).remaining().len(),
        decreases old(self).remaining().len(), 6int,
    {
        let ghost t0 = self.remaining();
        let mut body: Vec<Statement> = Vec::new();
        proof { assert(stmts_view(body@) =~= Seq::empty()); }
        loop
            invariant
                self.wf(),
                t0 == old(self).remaining(),
                parse_block_body(t0, Seq::empty()) == parse_block_body(self.remaining(), stmts_view(body@)),
                self.remaining().len() <= t0.len(),
            decreases self.remaining().len(),
        {
            let ghost acc = stmts_view(body@);
            match self.tokens.peek() {
                None => return Err(ParseError::UnclosedBlock),
                Some(Token::EndBlock) => {
                    self.tokens.next();
                    return Ok(body);
                },
                _ => {},
            }
            match self.next() {
                Some(Ok(s)) => {
                    let ghost sv = s@;
                    body.push(s);
                    proof { assert(stmts_view(body@) =~= acc.push(sv)); }
                },
                Some(Err(x)) => return Err(x),
                None => return Err(ParseError::UnclosedBlock),
            }
        }
    }

    /// Parses the branches of an `if` after its `do`, and its `end`.
    fn if_body(&mut self) -> (r: Result<(Vec<Statement>, Vec<Statement>), ParseError>)
        requires
            old(self).wf(),
        ensures
            final(self).wf(),
            branches_result(r) == parse_if_body(old(self).remaining(), Seq::empty()).0,
            final(self).remaining() == parse_if_body(old(self).remaining(), Seq::empty()).1,
            final(self).remaining().len() <= old(self).remaining().len(),
        decreases old(self).remaining().len(), 6int,
    {
        let ghost t0 = self.remaining();
        let mut then_branch: Vec<Statement> = Vec::new();
        proof { assert(stmts_view(then_branch@) =~= Seq::empty()); }
        loop
            invariant
                self.wf(),
                t0 == old(self).remaining(),
                parse_if_body(t0, Seq::empty()) == parse_if_body(self.remaining(), stmts_view(then_branch@)),
                self.remaining().len() <= t0.len(),
            decreases self.remaining().len(),
        {
            let ghost acc = stmts_view(then_branch@);
            match self.tokens.peek() {
                None => return Err(ParseError::UnclosedBlock),
                Some(Token::Else) => {
                    self.tokens.next();
                    return match self.block_body() {
                        Ok(b) => Ok((then_branch, b)),
                        Err(x) => Err(x),
                    };
                },
                Some(Token::EndBlock) => {
                    self.tokens.next();
                    proof { assert(stmts_view(Seq::<Statement>::empty()) =~= Seq::empty()); }
                    return Ok((then_branch, Vec::new()));
                },
                _ => {},
            }
            match self.next() {
                Some(Ok(s)) => {
                    let ghost sv = s@;
                    then_branch.push(s);
                    proof { assert(stmts_view(then_branch@) =~= acc.push(sv)); }
                },
                Some(Err(x)) => return Err(x),
                None => return Err(ParseError::UnclosedBlock),
            }
        }
    }

    /// Parses every statement that is left, keeping those that parse.
    pub fn parse_remaining(&mut self) -> (r: Vec<Statement>)
        requires
            old(self).wf(),
        ensures
            final(self).wf(),
            stmts_view(r@) == parse_all(old(self).remaining()),
    {
        let mut out: Vec<Statement> = Vec::new();
        let ghost t0 = self.remaining();
        proof { assert(stmts_view(out@) =~= Seq::empty()); }
        loop
            invariant
                self.wf(),
                t0 == old(self).remaining(),
                parse_all(t0) == stmts_view(out@) + parse_all(self.remaining()),
            decreases self.remaining().len(),
        {
            let ghost acc = stmts_view(out@);
            match self.next() {
                None => {
                    proof { assert(parse_all(t0) =~= stmts_view(out@)); }
                    return out;
                },
                Some(Ok(s)) => {
                    let ghost sv = s@;
                    out.push(s);
                    proof {
                        assert(stmts_view(out@) =~= acc.push(sv));
                        assert(parse_all(t0) =~= stmts_view(out@) + parse_all(self.remaining()));
                    }
                },
                Some(Err(_)) => {},
            }
        }
    }
}

/// Parses source text into the statements that parse, in order; `read_number`
/// reads a fragment as a binary32 numeral.
pub fn parse<F: Fn(String) -> Option<Number>>(src: &str, read_number: F) -> (r: Vec<Statement>)
    requires
        forall|s: String| read_number.requires((s,)),
    ensures
        exists|ts: Seq<Token>| tokens_of(ts, fragments(src@), read_number) && stmts_view(r@) == parse_all(ts),
{
    let tokens = Tokenizer::new(src, read_number);
    let ghost ts = tokens.remaining();
    let mut builder = StatementBuilder::new(tokens);
    let r = builder.parse_remaining();
    assert(tokens_of(ts, fragments(src@), read_number) && stmts_view(r@) == parse_all(ts));
    r
}

} // verus!
