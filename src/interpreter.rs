use vstd::prelude::*;
use crate::value::{Binop, Number, Value, Variable};
use crate::parser::{lemma_block_view, lemma_if_view, lemma_while_view, stmts_view, Expr, Expression, Statement, Stmt};

verus! {

broadcast use vstd::std_specs::vec::group_vec_axioms;

/// What the interpreter asks of the program that runs it: calling its
/// native functions, and binary32 arithmetic.
pub trait Host {
    /// Calls the native function with handle `f` on `args`.
    fn call(&mut self, f: u64, args: Vec<Value>) -> Value;

    /// `a op b` for one of `+ - * /`.
    fn arithmetic(&mut self, op: Binop, a: Number, b: Number) -> Number;

    /// `a op b` for one of `< <= > >= == ~=`.
    fn compare(&mut self, op: Binop, a: Number, b: Number) -> bool;
}

/// Why a statement or an expression could not be run.
#[derive(Clone, Copy, Debug, PartialEq, Eq, Structural)]
pub enum EvalError {
    /// A call of a value that is not a function.
    NotCallable,
    /// The budget of loop iterations ran out.
    StepLimit,
}

/// The scopes of an environment, innermost last.
pub type Scopes = Seq<Map<Seq<char>, Value>>;

/// The latest binding of `k` in an association list.
pub open spec fn scope_lookup(s: Seq<(String, Value)>, k: Seq<char>) -> Option<Value>
    decreases s.len(),
{
    if s.len() == 0 {
        None
    } else if s.last().0@ == k {
        Some(s.last().1)
    } else {
        scope_lookup(s.drop_last(), k)
    }
}

pub open spec fn scope_map(s: Seq<(String, Value)>) -> Map<Seq<char>, Value> {
    Map::new(|k: Seq<char>| scope_lookup(s, k) is Some, |k: Seq<char>| scope_lookup(s, k)->0)
}

/// The value of `k`, searched from the innermost scope outward; `Nil` where
/// no scope binds it.
pub open spec fn lookup(st: Scopes, k: Seq<char>) -> Value
    decreases st.len(),
{
    if st.len() == 0 {
        Value::Nil
    } else if st.last().contains_key(k) {
        st.last()[k]
    } else {
        lookup(st.drop_last(), k)
    }
}

/// Writes `k` in the innermost scope at or below `n` that binds it, or in
/// the global scope where none does.
pub open spec fn assign_at(st: Scopes, n: int, k: Seq<char>, v: Value) -> Scopes
    decreases n,
{
    if n <= 0 {
        st.update(0, st[0].insert(k, v))
    } else if st[n].contains_key(k) {
        st.update(n, st[n].insert(k, v))
    } else {
        assign_at(st, n - 1, k, v)
    }
}

/// Assignment: the nearest scope that declares `k` gets `v`; where none
/// does, the global scope does.
pub open spec fn assign(st: Scopes, k: Seq<char>, v: Value) -> Scopes {
    assign_at(st, st.len() - 1, k, v)
}

/// A local declaration: `k` is bound to `Nil` in the innermost scope.
pub open spec fn declare(st: Scopes, k: Seq<char>) -> Scopes {
    st.update(st.len() - 1, st.last().insert(k, Value::Nil))
}

/// Entering a block: a new empty scope.
pub open spec fn enter(st: Scopes) -> Scopes {
    st.push(Map::empty())
}

/// `Nil` and `false` are false; every other value is true.
pub open spec fn truthy(v: Value) -> bool {
    !(v is False || v is Nil)
}

/// The value of `e`, where finding it asks nothing of the host; `None`
/// where it does (a call of a native function, arithmetic on two numbers).
pub open spec fn pure_eval(st: Scopes, e: Expr) -> Option<Result<Value, EvalError>>
    decreases e,
{
    match e {
        Expr::Constant(c) => Some(Ok(c)),
        Expr::Variable(Variable::Name(s)) => Some(Ok(lookup(st, s@))),
        Expr::Call(f, _) => match pure_eval(st, *f) {
            Some(Ok(v)) => if v is NativeFunction { None } else { Some(Err(EvalError::NotCallable)) },
            other => other,
        },
        Expr::Binop(_, l, r) => match pure_eval(st, *l) {
            Some(Ok(a)) => match pure_eval(st, *r) {
                Some(Ok(b)) => if a is Number && b is Number { None } else { Some(Ok(Value::Nil)) },
                other => other,
            },
            other => other,
        },
    }
}

/// `o` is a number found without the host.
pub open spec fn gives_number(o: Option<Result<Value, EvalError>>) -> bool {
    o is Some && o->0 is Ok && o->0->Ok_0 is Number
}

/// Running `s` from scopes `st` with `f` loop iterations left: the result,
/// the scopes and the iterations left after it; `None` where it asks
/// something of the host.
pub open spec fn run(st: Scopes, f: nat, s: Stmt) -> Option<(Result<(), EvalError>, Scopes, nat)>
    decreases f, s, 0int,
{
    match s {
        Stmt::Assignment(Variable::Name(x), e) => match pure_eval(st, e) {
            Some(Ok(v)) => Some((Ok(()), assign(st, x@, v), f)),
            Some(Err(err)) => Some((Err(err), st, f)),
            None => None,
        },
        Stmt::SetLocal(Variable::Name(x)) => Some((Ok(()), declare(st, x@), f)),
        Stmt::Call(callee, args) => match pure_eval(st, Expr::Call(callee, args)) {
            Some(Err(err)) => Some((Err(err), st, f)),
            _ => None,
        },
        Stmt::Block(b) => match run_list(enter(st), f, b, 0) {
            Some((r, st2, f2)) => Some((r, st2.drop_last(), f2)),
            None => None,
        },
        Stmt::While(c, body) => match pure_eval(st, c) {
            None => None,
            Some(Err(err)) => Some((Err(err), st, f)),
            Some(Ok(v)) => {
                if !truthy(v) {
                    Some((Ok(()), st, f))
                } else if f == 0 {
                    Some((Err(EvalError::StepLimit), st, f))
                } else {
                    match run_list(st, (f - 1) as nat, body, 0) {
                        Some((Ok(()), st2, f2)) => {
                            if f2 < f {
                                run(st2, f2, Stmt::While(c, body))
                            } else {
                                None
                            }
                        },
                        other => other,
                    }
                }
            },
        },
        Stmt::If(c, a, b) => match pure_eval(st, c) {
            None => None,
            Some(Err(err)) => Some((Err(err), st, f)),
            Some(Ok(v)) => if truthy(v) { run_list(st, f, a, 0) } else { run_list(st, f, b, 0) },
        },
    }
}

/// Running the statements of `l` from index `i` on, in order, up to the
/// first failure.
pub open spec fn run_list(st: Scopes, f: nat, l: Seq<Stmt>, i: int) -> Option<(Result<(), EvalError>, Scopes, nat)>
    decreases f, l, l.len() - i,
{
    if i < 0 || i >= l.len() {
        Some((Ok(()), st, f))
    } else {
        match run(st, f, l[i]) {
            Some((Ok(()), st2, f2)) => {
                if f2 <= f {
                    run_list(st2, f2, l, i + 1)
                } else {
                    None
                }
            },
            other => other,
        }
    }
}

/// A name declared `local` inside a block holds what is assigned to it there,
/// and the block leaves the scopes around it as they were: the local does
/// not outlive the block.
pub proof fn lemma_local_stays_in_block(st: Scopes, f: nat, x: String, v: Value)
    requires
        st.len() >= 1,
    ensures
        lookup(assign(declare(enter(st), x@), x@, v), x@) == v,
        run(st, f, Stmt::Block(seq![
            Stmt::SetLocal(Variable::Name(x)),
            Stmt::Assignment(Variable::Name(x), Expr::Constant(v)),
        ])) == Some((Ok::<(), EvalError>(()), st, f)),
{
    let l = seq![
        Stmt::SetLocal(Variable::Name(x)),
        Stmt::Assignment(Variable::Name(x), Expr::Constant(v)),
    ];
    let st1 = enter(st);
    let st2 = declare(st1, x@);
    let n = st2.len() - 1;
    assert(st2[n].contains_key(x@));
    let st3 = assign(st2, x@, v);
    assert(st3 == st2.update(n, st2[n].insert(x@, v)));
    assert(st3.last()[x@] == v);
    assert(st3.drop_last() =~= st);
    assert(run(st1, f, l[0]) == Some((Ok::<(), EvalError>(()), st2, f)));
    assert(pure_eval(st2, Expr::Constant(v)) == Some(Ok::<Value, EvalError>(v)));
    assert(run(st2, f, l[1]) == Some((Ok::<(), EvalError>(()), st3, f)));
    assert(run_list(st3, f, l, 2) == Some((Ok::<(), EvalError>(()), st3, f)));
    assert(run_list(st2, f, l, 1) == Some((Ok::<(), EvalError>(()), st3, f)));
    assert(run_list(st1, f, l, 0) == Some((Ok::<(), EvalError>(()), st3, f)));
}

proof fn lemma_assign_skips_to_global(st: Scopes, n: int, k: Seq<char>, v: Value)
    requires
        0 <= n < st.len(),
        forall|i: int| 1 <= i <= n ==> !(#[trigger] st[i]).contains_key(k),
    ensures
        assign_at(st, n, k, v) == st.update(0, st[0].insert(k, v)),
    decreases n,
{
    if n > 0 {
        lemma_assign_skips_to_global(st, n - 1, k, v);
    }
}

proof fn lemma_lookup_finds_global(st: Scopes, k: Seq<char>)
    requires
        st.len() >= 1,
        st[0].contains_key(k),
        forall|i: int| 1 <= i < st.len() ==> !(#[trigger] st[i]).contains_key(k),
    ensures
        lookup(st, k) == st[0][k],
    decreases st.len(),
{
    if st.len() > 1 {
        assert(!st[st.len() - 1].contains_key(k));
        lemma_lookup_finds_global(st.drop_last(), k);
    }
}

/// Assigning, inside a block, a name that no scope but the global one
/// declares writes the global scope, and the value is seen there after the
/// block.
pub proof fn lemma_undeclared_goes_global(st: Scopes, f: nat, x: String, v: Value)
    requires
        st.len() >= 1,
        forall|i: int| 1 <= i < st.len() ==> !(#[trigger] st[i]).contains_key(x@),
    ensures
        run(st, f, Stmt::Block(seq![Stmt::Assignment(Variable::Name(x), Expr::Constant(v))]))
            matches Some((res, after, _)) && res == Ok::<(), EvalError>(()) && after[0][x@] == v
            && lookup(after, x@) == v,
{
    let l = seq![Stmt::Assignment(Variable::Name(x), Expr::Constant(v))];
    let st1 = enter(st);
    assert forall|i: int| 1 <= i <= st1.len() - 1 implies !(#[trigger] st1[i]).contains_key(x@) by {
        if i < st.len() {
            assert(st1[i] == st[i]);
        }
    }
    lemma_assign_skips_to_global(st1, st1.len() - 1, x@, v);
    let st2 = assign(st1, x@, v);
    assert(pure_eval(st1, Expr::Constant(v)) == Some(Ok::<Value, EvalError>(v)));
    assert(run(st1, f, l[0]) == Some((Ok::<(), EvalError>(()), st2, f)));
    assert(run_list(st2, f, l, 1) == Some((Ok::<(), EvalError>(()), st2, f)));
    assert(run_list(st1, f, l, 0) == Some((Ok::<(), EvalError>(()), st2, f)));
    let out = st2.drop_last();
    assert(out =~= st.update(0, st[0].insert(x@, v)));
    assert forall|i: int| 1 <= i < out.len() implies !(#[trigger] out[i]).contains_key(x@) by {
        assert(out[i] == st[i]);
    }
    lemma_lookup_finds_global(out, x@);
}

/// An `if` runs exactly one of its branches: the first where its condition
/// is true, the second where it is not.
pub proof fn lemma_if_runs_one_branch(st: Scopes, f: nat, c: Expr, a: Seq<Stmt>, b: Seq<Stmt>, v: Value)
    requires
        pure_eval(st, c) == Some(Ok::<Value, EvalError>(v)),
    ensures
        truthy(v) ==> run(st, f, Stmt::If(c, a, b)) == run_list(st, f, a, 0),
        !truthy(v) ==> run(st, f, Stmt::If(c, a, b)) == run_list(st, f, b, 0),
{
}

proof fn lemma_assign_len(st: Scopes, n: int, k: Seq<char>, v: Value)
    requires
        st.len() >= 1,
        n < st.len(),
    ensures
        assign_at(st, n, k, v).len() == st.len(),
    decreases n,
{
    if n > 0 && !st[n].contains_key(k) {
        lemma_assign_len(st, n - 1, k, v);
    }
}

proof fn lemma_lookup_update(s: Seq<(String, Value)>, j: int, key: String, v: Value, k: Seq<char>)
    requires
        0 <= j < s.len(),
        s[j].0@ == key@,
        forall|m: int| j < m < s.len() ==> (#[trigger] s[m]).0@ != key@,
    ensures
        scope_lookup(s.update(j, (key, v)), k) == if k == key@ { Some(v) } else { scope_lookup(s, k) },
    decreases s.len(),
{
    let u = s.update(j, (key, v));
    if j < s.len() - 1 {
        assert(u.drop_last() =~= s.drop_last().update(j, (key, v)));
        assert(s[s.len() - 1].0@ != key@);
        lemma_lookup_update(s.drop_last(), j, key, v, k);
    } else {
        assert(u.drop_last() =~= s.drop_last());
    }
}

/// The index of the latest binding of `k` in a scope.
fn scope_find(s: &Vec<(String, Value)>, k: &String) -> (r: Option<usize>)
    ensures
        r is None ==> scope_lookup(s@, k@) is None,
        r is Some ==> r->0 < s@.len() && s@[r->0 as int].0@ == k@
            && scope_lookup(s@, k@) == Some(s@[r->0 as int].1)
            && forall|m: int| r->0 < m < s@.len() ==> (#[trigger] s@[m]).0@ != k@,
{
    let mut i = s.len();
    assert(s@.subrange(0, i as int) =~= s@);
    while i > 0
        invariant
            i <= s@.len(),
            scope_lookup(s@, k@) == scope_lookup(s@.subrange(0, i as int), k@),
            forall|m: int| i <= m < s@.len() ==> (#[trigger] s@[m]).0@ != k@,
        decreases i,
    {
        let ghost pre = s@.subrange(0, i as int);
        assert(pre.drop_last() =~= s@.subrange(0, i as int - 1));
        if s[i - 1].0 == *k {
            return Some(i - 1);
        }
        i -= 1;
    }
    None
}

/// Binds `k` to `v` in a scope.
fn scope_set(s: &mut Vec<(String, Value)>, k: String, v: Value)
    ensures
        scope_map(final(s)@) == scope_map(old(s)@).insert(k@, v),
{
    let ghost key = k;
    match scope_find(s, &k) {
        Some(j) => {
            proof {
                assert forall|q: Seq<char>| scope_lookup(old(s)@.update(j as int, (key, v)), q)
                    == (if q == key@ { Some(v) } else { scope_lookup(old(s)@, q) }) by {
                    lemma_lookup_update(old(s)@, j as int, key, v, q);
                }
            }
            s.set(j, (k, v));
        },
        None => {
            s.push((k, v));
            proof {
                assert forall|q: Seq<char>| scope_lookup(s@, q)
                    == (if q == key@ { Some(v) } else { scope_lookup(old(s)@, q) }) by {
                    assert(s@.drop_last() =~= old(s)@);
                }
            }
        },
    }
    assert(scope_map(s@) =~= scope_map(old(s)@).insert(key@, v));
}

/// A stack of scopes, each binding names to values; the global scope is
/// first and is never left.
pub struct Environment {
    scopes: Vec<Vec<(String, Value)>>,
    steps: u64,
}

impl View for Environment {
    type V = Scopes;

    closed spec fn view(&self) -> Scopes {
        Seq::new(self.scopes@.len(), |i: int| scope_map(self.scopes@[i]@))
    }
}

impl Environment {
    pub closed spec fn wf(&self) -> bool {
        self.scopes@.len() >= 1
    }

    /// How many more loop iterations may run.
    pub closed spec fn steps_left(&self) -> nat {
        self.steps as nat
    }

    /// An environment with one empty global scope and no bound on loop iterations
    /// short of `u64::MAX`.
    pub fn new() -> (r: Environment)
        ensures
            r.wf(),
            r@ == seq![Map::<Seq<char>, Value>::empty()],
            r.steps_left() == u64::MAX,
    {
        Environment::with_step_limit(u64::MAX)
    }

    /// An environment with one empty global scope that runs at most `steps`
    /// loop iterations.
    pub fn with_step_limit(steps: u64) -> (r: Environment)
        ensures
            r.wf(),
            r@ == seq![Map::<Seq<char>, Value>::empty()],
            r.steps_left() == steps,
    {
        let mut scopes: Vec<Vec<(String, Value)>> = Vec::new();
        scopes.push(Vec::new());
        let r = Environment { scopes, steps };
        assert(scope_map(Seq::<(String, Value)>::empty()) =~= Map::empty());
        assert(r@ =~= seq![Map::<Seq<char>, Value>::empty()]);
        r
    }

    /// `Nil` and `false` are false; every other value is true.
    pub fn is_true(v: Value) -> (r: bool)
        ensures
            r == truthy(v),
    {
        match v {
            Value::False | Value::Nil => false,
            _ => true,
        }
    }

    /// Sets a variable: in the innermost scope that declares it, or in the
    /// global scope where none does.
    pub fn set_variable(&mut self, name: String, value: Value)
        requires
            old(self).wf(),
        ensures
            final(self).wf(),
            final(self)@ == assign(old(self)@, name@, value),
            final(self).steps_left() == old(self).steps_left(),
    {
        let ghost st = self@;
        let mut n = self.scopes.len() - 1;
        while n > 0
            invariant
                1 <= self.scopes@.len(),
                n < self.scopes@.len(),
                self@ == st,
                assign(st, name@, value) == assign_at(st, n as int, name@, value),
            ensures
                n == 0 || st[n as int].contains_key(name@),
            decreases n,
        {
            if scope_find(&self.scopes[n], &name).is_some() {
                break;
            }
            n -= 1;
        }
        let ghost k = name@;
        let ghost old_scopes = self.scopes@;
        let mut scope: Vec<(String, Value)> = Vec::new();
        self.scopes.set_and_swap(n, &mut scope);
        assert(scope@ == old_scopes[n as int]@);
        scope_set(&mut scope, name, value);
        self.scopes.set(n, scope);
        assert(self@ =~= assign_at(st, n as int, k, value));
    }

    /// The value of a variable, searched from the innermost scope outward;
    /// `Nil` where no scope binds it.
    pub fn get_variable(&self, name: String) -> (r: Value)
        requires
            self.wf(),
        ensures
            r == lookup(self@, name@),
    {
        self.lookup(&name)
    }

    fn lookup(&self, name: &String) -> (r: Value)
        ensures
            r == lookup(self@, name@),
    {
        let mut i = self.scopes.len();
        assert(self@.subrange(0, i as int) =~= self@);
        while i > 0
            invariant
                i <= self.scopes@.len(),
                lookup(self@, name@) == lookup(self@.subrange(0, i as int), name@),
            decreases i,
        {
            let ghost pre = self@.subrange(0, i as int);
            assert(pre.drop_last() =~= self@.subrange(0, i as int - 1));
            match scope_find(&self.scopes[i - 1], name) {
                Some(j) => {
                    return self.scopes[i - 1][j].1.duplicate();
                },
                None => {},
            }
            i -= 1;
        }
        Value::Nil
    }

    /// The value of an expression. Calls of native functions and arithmetic
    /// on two numbers are the host's; an operator with an operand that is not
    /// a number gives `Nil`.
    pub fn evaluate<H: Host>(&self, exp: &Expression, host: &mut H) -> (r: Result<Value, EvalError>)
        requires
            self.wf(),
        ensures
            pure_eval(self@, exp@) is Some ==> r == pure_eval(self@, exp@)->0,
            exp@ is Binop && gives_number(pure_eval(self@, *exp@->Binop_1))
                && gives_number(pure_eval(self@, *exp@->Binop_2)) ==> {
                if exp@->Binop_0.spec_is_comparison() {
                    r == Ok::<Value, EvalError>(Value::True) || r == Ok::<Value, EvalError>(Value::False)
                } else {
                    r is Ok && r->Ok_0 is Number
                }
            },
        decreases exp, 1int,
    {
        match exp {
            Expression::Constant(c) => Ok(c.duplicate()),
            Expression::Variable(Variable::Name(s)) => Ok(self.lookup(s)),
            Expression::FunctionCall(f, args) => {
                match self.evaluate(&**f, host) {
                    Err(x) => Err(x),
                    Ok(Value::NativeFunction(h)) => self.call_native(h, args, host),
                    Ok(_) => Err(EvalError::NotCallable),
                }
            },
            Expression::Binop(op, l, r) => {
                let a = match self.evaluate(&**l, host) {
                    Ok(v) => v,
                    Err(x) => return Err(x),
                };
                let b = match self.evaluate(&**r, host) {
                    Ok(v) => v,
                    Err(x) => return Err(x),
                };
                match (a, b) {
                    (Value::Number(x), Value::Number(y)) => {
                        if op.is_comparison() {
                            if host.compare(*op, x, y) {
                                Ok(Value::True)
                            } else {
                                Ok(Value::False)
                            }
                        } else {
                            Ok(Value::Number(host.arithmetic(*op, x, y)))
                        }
                    },
                    _ => Ok(Value::Nil),
                }
            },
        }
    }

    /// Evaluates the arguments in order, then calls the native function `h` on them.
    fn call_native<H: Host>(&self, h: u64, args: &Vec<Expression>, host: &mut H) -> (r: Result<Value, EvalError>)
        requires
            self.wf(),
        decreases args, 2int,
    {
        let mut values: Vec<Value> = Vec::new();
        let mut i: usize = 0;
        while i < args.len()
            invariant
                self.wf(),
                i <= args@.len(),
            decreases args@.len() - i,
        {
            match self.evaluate(&args[i], host) {
                Ok(v) => values.push(v),
                Err(x) => return Err(x),
            }
            i += 1;
        }
        Ok(host.call(h, values))
    }

    /// Executes a statement. Blocks leave exactly the scope they entered,
    /// also when they fail.
    pub fn exec_statement<H: Host>(&mut self, statement: Statement, host: &mut H) -> (r: Result<(), EvalError>)
        requires
            old(self).wf(),
        ensures
            final(self).wf(),
            final(self)@.len() == old(self)@.len(),
            final(self).steps_left() <= old(self).steps_left(),
            run(old(self)@, old(self).steps_left(), statement@) matches Some((rr, st2, f2)) ==>
                r == rr && final(self)@ == st2 && final(self).steps_left() == f2,
    {
        self.exec(&statement, host)
    }

    fn exec<H: Host>(&mut self, s: &Statement, host: &mut H) -> (r: Result<(), EvalError>)
        requires
            old(self).wf(),
        ensures
            final(self).wf(),
            final(self)@.len() == old(self)@.len(),
            final(self).steps <= old(self).steps,
            run(old(self)@, old(self).steps as nat, s@) matches Some((rr, st2, f2)) ==>
                r == rr && final(self)@ == st2 && final(self).steps == f2,
        decreases old(self).steps, s, 0int,
    {
        match s {
            Statement::Assignment(Variable::Name(x), e) => {
                match self.evaluate(e, host) {
                    Ok(v) => {
                        proof { lemma_assign_len(self@, self@.len() - 1, x@, v); }
                        self.set_variable(x.clone(), v);
                        Ok(())
                    },
                    Err(err) => Err(err),
                }
            },
            Statement::SetLocal(Variable::Name(x)) => {
                let ghost st = self@;
                let ghost old_scopes = self.scopes@;
                let n = self.scopes.len() - 1;
                let mut scope: Vec<(String, Value)> = Vec::new();
                self.scopes.set_and_swap(n, &mut scope);
                assert(scope@ == old_scopes[n as int]@);
                scope_set(&mut scope, x.clone(), Value::Nil);
                self.scopes.set(n, scope);
                assert(self@ =~= declare(st, x@));
                Ok(())
            },
            Statement::FunctionCall(f, args) => {
                match self.evaluate(&**f, host) {
                    Err(x) => Err(x),
                    Ok(Value::NativeFunction(h)) => {
                        match self.call_native(h, args, host) {
                            Ok(_) => Ok(()),
                            Err(x) => Err(x),
                        }
                    },
                    Ok(_) => Err(EvalError::NotCallable),
                }
            },
            Statement::Block(b) => {
                proof { lemma_block_view(*b); }
                let ghost st = self@;
                self.scopes.push(Vec::new());
                assert(scope_map(Seq::<(String, Value)>::empty()) =~= Map::empty());
                assert(self@ =~= enter(st));
                let r = self.exec_list(b, host);
                let ghost inner = self@;
                self.scopes.pop();
                assert(self@ =~= inner.drop_last());
                r
            },
            Statement::While(c, body) => {
                proof { lemma_while_view(*c, *body); }
                let ghost st0 = self@;
                let ghost f0 = self.steps as nat;
                loop
                    invariant
                        self.wf(),
                        self@.len() == st0.len(),
                        self.steps <= f0,
                        st0 == old(self)@,
                        f0 == old(self).steps,
                        s@ == Stmt::While(c@, stmts_view(body@)),
                        run(st0, f0, s@) is Some ==> run(self@, self.steps as nat, s@) == run(st0, f0, s@),
                    decreases self.steps,
                {
                    match self.evaluate(c, host) {
                        Err(x) => return Err(x),
                        Ok(v) => {
                            if !Self::is_true(v) {
                                return Ok(());
                            }
                        },
                    }
                    if self.steps == 0 {
                        return Err(EvalError::StepLimit);
                    }
                    self.steps -= 1;
                    match self.exec_list(body, host) {
                        Err(x) => return Err(x),
                        Ok(()) => {},
                    }
                }
            },
            Statement::If(c, a, b) => {
                proof { lemma_if_view(*c, *a, *b); }
                match self.evaluate(c, host) {
                    Err(x) => Err(x),
                    Ok(v) => {
                        if Self::is_true(v) {
                            self.exec_list(a, host)
                        } else {
                            self.exec_list(b, host)
                        }
                    },
                }
            },
        }
    }

    /// Executes statements in order, up to the first failure.
    fn exec_list<H: Host>(&mut self, l: &Vec<Statement>, host: &mut H) -> (r: Result<(), EvalError>)
        requires
            old(self).wf(),
        ensures
            final(self).wf(),
            final(self)@.len() == old(self)@.len(),
            final(self).steps <= old(self).steps,
            run_list(old(self)@, old(self).steps as nat, stmts_view(l@), 0) matches Some((rr, st2, f2)) ==>
                r == rr && final(self)@ == st2 && final(self).steps == f2,
        decreases old(self).steps, l, 1int,
    {
        let ghost st0 = self@;
        let ghost f0 = self.steps as nat;
        let ghost ls = stmts_view(l@);
        let mut i: usize = 0;
        while i < l.len()
            invariant
                self.wf(),
                i <= l@.len(),
                ls == stmts_view(l@),
                self@.len() == st0.len(),
                self.steps <= f0,
                st0 == old(self)@,
                f0 == old(self).steps,
                run_list(st0, f0, ls, 0) is Some ==> run_list(self@, self.steps as nat, ls, i as int) == run_list(st0, f0, ls, 0),
            decreases l@.len() - i,
        {
            match self.exec(&l[i], host) {
                Err(x) => return Err(x),
                Ok(()) => {},
            }
            i += 1;
        }
        Ok(())
    }
}

} // verus!
