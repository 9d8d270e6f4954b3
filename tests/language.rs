use moon::interpreter::{Environment, EvalError, Host};
use moon::lexer::{classify, Separator, Tokenizer};
use moon::parser::{parse, Expression, ParseError, Statement, StatementBuilder};
use moon::value::{Binop, Number, Token, Value, Variable};

fn num(x: f32) -> Number {
    Number::from_bits(x.to_bits())
}

fn read_number(s: String) -> Option<Number> {
    s.parse::<f32>().ok().map(num)
}

fn name(s: &str) -> Variable {
    Variable::Name(s.to_string())
}

fn tokens(src: &str) -> Vec<Token> {
    Tokenizer::new(src, read_number).collect_tokens()
}

fn test_statement(src: &str, desired: Vec<Statement>) {
    let mut results = StatementBuilder::new(Tokenizer::new(src, read_number));
    for x in desired {
        if let Some(output) = results.next() {
            assert_eq!(output, Ok(x));
        }
    }
}

fn first_statement(src: &str) -> Option<Result<Statement, ParseError>> {
    StatementBuilder::new(Tokenizer::new(src, read_number)).next()
}

/// Binary32 arithmetic, and native functions that record their arguments.
struct TestHost {
    calls: Vec<(u64, Vec<Value>)>,
}

impl TestHost {
    fn new() -> TestHost {
        TestHost { calls: Vec::new() }
    }
}

impl Host for TestHost {
    fn call(&mut self, f: u64, args: Vec<Value>) -> Value {
        self.calls.push((f, args));
        Value::Nil
    }

    fn arithmetic(&mut self, op: Binop, a: Number, b: Number) -> Number {
        let (x, y) = (f32::from_bits(a.bits), f32::from_bits(b.bits));
        let r = match op {
            Binop::Add => x + y,
            Binop::Sub => x - y,
            Binop::Mul => x * y,
            _ => x / y,
        };
        num(r)
    }

    fn compare(&mut self, op: Binop, a: Number, b: Number) -> bool {
        let (x, y) = (f32::from_bits(a.bits), f32::from_bits(b.bits));
        match op {
            Binop::Lt => x < y,
            Binop::Le => x <= y,
            Binop::Gt => x > y,
            Binop::Ge => x >= y,
            Binop::Eq => x == y,
            _ => x != y,
        }
    }
}

fn constant(v: Value) -> Expression {
    Expression::Constant(v)
}

fn var(s: &str) -> Expression {
    Expression::Variable(name(s))
}

#[test]
fn separate() {
    let words: Vec<String> = Separator::new("x=true\t\ty = false").collect_words();
    assert_eq!(words, vec!["x", "=", "true", "y", "=", "false"]);
}

#[test]
fn tokenize() {
    let t = tokens("x = true");
    assert_eq!(t, vec![
        Token::Variable(name("x")),
        Token::Equal,
        Token::Constant(Value::True)
    ]);
    let t = tokens("x = fc(var, 4)");
    assert_eq!(t, vec![
        Token::Variable(name("x")),
        Token::Equal,
        Token::Variable(name("fc")),
        Token::OpeningParenthesis,
        Token::Variable(name("var")),
        Token::ExpressionSeparator,
        Token::Constant(Value::Number(num(4.0))),
        Token::ClosingParenthesis
    ]);
}

#[test]
fn tokenize_binops() {
    assert_eq!(tokens("x <= 3"), vec![
        Token::Variable(name("x")),
        Token::Binop(Binop::Le),
        Token::Constant(Value::Number(num(3.0)))
    ]);
}

#[test]
fn tokenize_strings() {
    assert_eq!(tokens("'str test'"), vec![
        Token::Constant(Value::String("str test".to_string()))
    ]);
}

#[test]
fn basic_statements() {
    test_statement("x = true", vec![Statement::Assignment(name("x"), constant(Value::True))]);
    test_statement("hello = \"world\"", vec![Statement::Assignment(
        name("hello"),
        constant(Value::String("world".to_string())),
    )]);
    test_statement("answer = 42", vec![Statement::Assignment(
        name("answer"),
        constant(Value::Number(num(42.0))),
    )]);
    test_statement("local x", vec![Statement::SetLocal(name("x"))]);
    test_statement("local x = 4", vec![
        Statement::SetLocal(name("x")),
        Statement::Assignment(name("x"), constant(Value::Number(num(4.0)))),
    ]);
}

#[test]
fn function_statements() {
    test_statement("do y = 3 end", vec![Statement::Block(vec![
        Statement::Assignment(name("y"), constant(Value::Number(num(3.0)))),
    ])]);
    test_statement("x = fc(var, 4)", vec![Statement::Assignment(
        name("x"),
        Expression::FunctionCall(
            Box::new(var("fc")),
            vec![var("var"), constant(Value::Number(num(4.0)))],
        ),
    )]);
    test_statement("print('Hello, world!')", vec![Statement::FunctionCall(
        Box::new(var("print")),
        vec![constant(Value::String("Hello, world!".to_string()))],
    )]);
}

#[test]
fn whitespace_only_has_no_fragments() {
    assert!(Separator::new("").collect_words().is_empty());
    assert!(Separator::new(" \t\n  \n").collect_words().is_empty());
    assert!(tokens("   ").is_empty());
}

#[test]
fn split_two_spaces() {
    let words = Separator::new("x=true  y = false").collect_words();
    assert_eq!(words, vec!["x", "=", "true", "y", "=", "false"]);
}

#[test]
fn split_keeps_quoted_text_whole() {
    let words = Separator::new("s = \"a, b = (c)\" ;").collect_words();
    assert_eq!(words, vec!["s", "=", "\"a, b = (c)\"", ";"]);
}

#[test]
fn split_unterminated_string() {
    let words = Separator::new("x 'abc def").collect_words();
    assert_eq!(words, vec!["x", "'abc def"]);
}

#[test]
fn split_two_character_operators() {
    let words = Separator::new("a >= b ~= c == d <= e").collect_words();
    assert_eq!(words, vec!["a", ">=", "b", "~=", "c", "==", "d", "<=", "e"]);
}

#[test]
fn split_punctuation_closes_fragment() {
    let words = Separator::new("f(a,b)+c").collect_words();
    assert_eq!(words, vec!["f", "(", "a", ",", "b", ")", "+", "c"]);
}

#[test]
fn classify_each_kind() {
    assert_eq!(classify("\"hi\"", None), Token::Constant(Value::String("hi".to_string())));
    assert_eq!(classify("'", None), Token::Constant(Value::String(String::new())));
    assert_eq!(classify("2.5", Some(num(2.5))), Token::Constant(Value::Number(num(2.5))));
    assert_eq!(classify("while", None), Token::While);
    assert_eq!(classify("~=", None), Token::Binop(Binop::Neq));
    assert_eq!(classify("nil", None), Token::Constant(Value::Nil));
    assert_eq!(classify("whilst", None), Token::Variable(name("whilst")));
}

#[test]
fn parse_keeps_statements_that_parse() {
    let stmts = parse("a = 1 ) b = 2", read_number);
    assert_eq!(stmts, vec![
        Statement::Assignment(name("a"), constant(Value::Number(num(1.0)))),
        Statement::Assignment(name("b"), constant(Value::Number(num(2.0)))),
    ]);
}

#[test]
fn operators_associate_to_the_right() {
    test_statement("x = 1 - 2 - 3", vec![Statement::Assignment(
        name("x"),
        Expression::Binop(
            Binop::Sub,
            Box::new(constant(Value::Number(num(1.0)))),
            Box::new(Expression::Binop(
                Binop::Sub,
                Box::new(constant(Value::Number(num(2.0)))),
                Box::new(constant(Value::Number(num(3.0)))),
            )),
        ),
    )]);
}

#[test]
fn parse_while_and_if() {
    test_statement("while x < 3 do x = x + 1 end", vec![Statement::While(
        Expression::Binop(Binop::Lt, Box::new(var("x")), Box::new(constant(Value::Number(num(3.0))))),
        vec![Statement::Assignment(
            name("x"),
            Expression::Binop(Binop::Add, Box::new(var("x")), Box::new(constant(Value::Number(num(1.0))))),
        )],
    )]);
    test_statement("if c do a = 1 else b = 2 end", vec![Statement::If(
        var("c"),
        vec![Statement::Assignment(name("a"), constant(Value::Number(num(1.0))))],
        vec![Statement::Assignment(name("b"), constant(Value::Number(num(2.0))))],
    )]);
    test_statement("if c do f() end", vec![Statement::If(
        var("c"),
        vec![Statement::FunctionCall(Box::new(var("f")), vec![])],
        vec![],
    )]);
}

#[test]
fn parse_errors() {
    assert_eq!(first_statement("local 3"), Some(Err(ParseError::NameExpected)));
    assert_eq!(first_statement("x 3"), Some(Err(ParseError::UnexpectedSymbol)));
    assert_eq!(first_statement(") x = 1"), Some(Err(ParseError::UnexpectedSymbol)));
    assert_eq!(first_statement("x"), Some(Err(ParseError::InvalidSyntax)));
    assert_eq!(first_statement("x = )"), Some(Err(ParseError::ExpressionExpected)));
    assert_eq!(first_statement("f(1 2)"), Some(Err(ParseError::MalformedCall)));
    assert_eq!(first_statement("while x y = 1"), Some(Err(ParseError::MalformedWhile)));
    assert_eq!(first_statement("if x y = 1 end"), Some(Err(ParseError::MalformedIf)));
    assert_eq!(first_statement("do y = 3"), Some(Err(ParseError::UnclosedBlock)));
    assert_eq!(first_statement(""), None);
}

#[test]
fn parse_continues_after_error() {
    let mut b = StatementBuilder::new(Tokenizer::new("x 3 y = 1", read_number));
    assert_eq!(b.next(), Some(Err(ParseError::UnexpectedSymbol)));
    assert_eq!(b.next(), Some(Ok(Statement::Assignment(name("y"), constant(Value::Number(num(1.0)))))));
    assert_eq!(b.next(), None);
}

#[test]
fn local_stays_in_block() {
    let mut env = Environment::new();
    let mut host = TestHost::new();
    env.set_variable("probe".to_string(), Value::NativeFunction(7));
    let block = Statement::Block(vec![
        Statement::SetLocal(name("x")),
        Statement::Assignment(name("x"), constant(Value::Number(num(5.0)))),
        Statement::FunctionCall(Box::new(var("probe")), vec![var("x")]),
    ]);
    assert_eq!(env.exec_statement(block, &mut host), Ok(()));
    assert_eq!(host.calls, vec![(7, vec![Value::Number(num(5.0))])]);
    assert_eq!(env.get_variable("x".to_string()), Value::Nil);
}

#[test]
fn undeclared_assignment_goes_global() {
    let mut env = Environment::new();
    let mut host = TestHost::new();
    let block = Statement::Block(vec![Statement::Block(vec![
        Statement::Assignment(name("g"), constant(Value::True)),
    ])]);
    assert_eq!(env.exec_statement(block, &mut host), Ok(()));
    assert_eq!(env.get_variable("g".to_string()), Value::True);
}

#[test]
fn assignment_updates_nearest_local() {
    let mut env = Environment::new();
    let mut host = TestHost::new();
    env.set_variable("x".to_string(), Value::Number(num(1.0)));
    let block = Statement::Block(vec![
        Statement::SetLocal(name("x")),
        Statement::Block(vec![Statement::Assignment(name("x"), constant(Value::Number(num(2.0))))]),
    ]);
    assert_eq!(env.exec_statement(block, &mut host), Ok(()));
    assert_eq!(env.get_variable("x".to_string()), Value::Number(num(1.0)));
}

#[test]
fn truthiness() {
    assert!(!Environment::is_true(Value::False));
    assert!(!Environment::is_true(Value::Nil));
    assert!(Environment::is_true(Value::Number(num(0.0))));
    assert!(Environment::is_true(Value::String(String::new())));
    assert!(Environment::is_true(Value::True));
}

#[test]
fn operator_type_mismatch_is_nil() {
    let env = Environment::new();
    let mut host = TestHost::new();
    let e = Expression::Binop(
        Binop::Add,
        Box::new(constant(Value::String("a".to_string()))),
        Box::new(constant(Value::Number(num(1.0)))),
    );
    assert_eq!(env.evaluate(&e, &mut host), Ok(Value::Nil));
}

#[test]
fn arithmetic_and_comparison() {
    let env = Environment::new();
    let mut host = TestHost::new();
    let sum = Expression::Binop(
        Binop::Add,
        Box::new(constant(Value::Number(num(1.5)))),
        Box::new(constant(Value::Number(num(2.0)))),
    );
    assert_eq!(env.evaluate(&sum, &mut host), Ok(Value::Number(num(3.5))));
    let le = Expression::Binop(
        Binop::Le,
        Box::new(constant(Value::Number(num(3.0)))),
        Box::new(constant(Value::Number(num(2.0)))),
    );
    assert_eq!(env.evaluate(&le, &mut host), Ok(Value::False));
}

#[test]
fn if_runs_one_branch() {
    let mut env = Environment::new();
    let mut host = TestHost::new();
    let stmt = Statement::If(
        constant(Value::False),
        vec![Statement::Assignment(name("a"), constant(Value::True))],
        vec![Statement::Assignment(name("b"), constant(Value::True))],
    );
    assert_eq!(env.exec_statement(stmt, &mut host), Ok(()));
    assert_eq!(env.get_variable("a".to_string()), Value::Nil);
    assert_eq!(env.get_variable("b".to_string()), Value::True);
}

#[test]
fn while_counts_to_three() {
    let mut env = Environment::new();
    let mut host = TestHost::new();
    env.set_variable("x".to_string(), Value::Number(num(0.0)));
    let stmt = Statement::While(
        Expression::Binop(Binop::Lt, Box::new(var("x")), Box::new(constant(Value::Number(num(3.0))))),
        vec![Statement::Assignment(
            name("x"),
            Expression::Binop(Binop::Add, Box::new(var("x")), Box::new(constant(Value::Number(num(1.0))))),
        )],
    );
    assert_eq!(env.exec_statement(stmt, &mut host), Ok(()));
    assert_eq!(env.get_variable("x".to_string()), Value::Number(num(3.0)));
}

#[test]
fn calling_a_number_fails() {
    let mut env = Environment::new();
    let mut host = TestHost::new();
    env.set_variable("x".to_string(), Value::Number(num(1.0)));
    let stmt = Statement::FunctionCall(Box::new(var("x")), vec![]);
    assert_eq!(env.exec_statement(stmt, &mut host), Err(EvalError::NotCallable));
    assert!(host.calls.is_empty());
}

#[test]
fn endless_loop_hits_step_limit() {
    let mut env = Environment::with_step_limit(10);
    let mut host = TestHost::new();
    let stmt = Statement::Block(vec![Statement::While(constant(Value::True), vec![
        Statement::SetLocal(name("t")),
    ])]);
    assert_eq!(env.exec_statement(stmt, &mut host), Err(EvalError::StepLimit));
    assert_eq!(env.get_variable("t".to_string()), Value::Nil);
}

#[test]
fn program_runs_end_to_end() {
    let mut env = Environment::new();
    let mut host = TestHost::new();
    env.set_variable("print".to_string(), Value::NativeFunction(1));
    let src = "local x = 0 if x < 2 do print('x < 2') else print('lol') end";
    for s in parse(src, read_number) {
        assert_eq!(env.exec_statement(s, &mut host), Ok(()));
    }
    assert_eq!(host.calls, vec![(1, vec![Value::String("x < 2".to_string())])]);
}
