//! The abstract syntax tree produced by the parser.

use vstd::prelude::*;

verus! {

/// A whole program: its statements in order.
#[derive(Debug, PartialEq)]
pub struct Program {
    pub statements: Vec<Statement>,
}

/// A statement: a unit of execution whose value, if any, is discarded.
#[derive(Debug, PartialEq)]
pub enum Statement {
    Let { name: String, value: Expression },
    Return(Expression),
    /// A statement that is just an expression, such as `5 + 3;`.
    ExpressionStmt(Expression),
}

/// An expression: a unit of execution that has a value.
#[derive(Debug, PartialEq)]
pub enum Expression {
    /// A variable name, such as `x` or `add`.
    Identifier(String),
    /// An integer literal, such as `5` or `42`.
    IntegerLiteral(i64),
    StringLiteral(String),
    /// `true` or `false`.
    BooleanLiteral(bool),
    /// A prefix operator applied to an operand, such as `!true` or `-5`.
    Prefix { operator: String, right: Box<Expression> },
    /// An infix operator between two operands, such as `5 + 3`.
    Infix { left: Box<Expression>, operator: String, right: Box<Expression> },
    /// `if (x > 5) { x } else { 5 }`
    If {
        condition: Box<Expression>,
        consequence: Vec<Statement>,
        alternative: Option<Vec<Statement>>,
    },
    /// `fn(x, y) { x + y }`
    FunctionLiteral { parameters: Vec<String>, body: Vec<Statement> },
    /// `add(1, 2)`
    Call { function: Box<Expression>, arguments: Vec<Expression> },
}

/// The mathematical value of a statement.
pub enum SpecStatement {
    Let { name: Seq<char>, value: SpecExpression },
    Return(SpecExpression),
    ExpressionStmt(SpecExpression),
}

/// The mathematical value of an expression: strings are character sequences,
/// lists are sequences and integers are unbounded.
pub enum SpecExpression {
    Identifier(Seq<char>),
    IntegerLiteral(int),
    StringLiteral(Seq<char>),
    BooleanLiteral(bool),
    Prefix { operator: Seq<char>, right: Box<SpecExpression> },
    Infix { left: Box<SpecExpression>, operator: Seq<char>, right: Box<SpecExpression> },
    If {
        condition: Box<SpecExpression>,
        consequence: Seq<SpecStatement>,
        alternative: Option<Seq<SpecStatement>>,
    },
    FunctionLiteral { parameters: Seq<Seq<char>>, body: Seq<SpecStatement> },
    Call { function: Box<SpecExpression>, arguments: Seq<SpecExpression> },
}

/// The characters of each string.
pub open spec fn strings_view(v: Seq<String>) -> Seq<Seq<char>> {
    Seq::new(v.len(), |i: int| v[i]@)
}

pub open spec fn expr_view(e: Expression) -> SpecExpression
    decreases e,
{
    match e {
        Expression::Identifier(s) => SpecExpression::Identifier(s@),
        Expression::IntegerLiteral(n) => SpecExpression::IntegerLiteral(n as int),
        Expression::StringLiteral(s) => SpecExpression::StringLiteral(s@),
        Expression::BooleanLiteral(b) => SpecExpression::BooleanLiteral(b),
        Expression::Prefix { operator, right } => SpecExpression::Prefix {
            operator: operator@,
            right: Box::new(expr_view(*right)),
        },
        Expression::Infix { left, operator, right } => SpecExpression::Infix {
            left: Box::new(expr_view(*left)),
            operator: operator@,
            right: Box::new(expr_view(*right)),
        },
        Expression::If { condition, consequence, alternative } => SpecExpression::If {
            condition: Box::new(expr_view(*condition)),
            consequence: stmts_view(consequence@),
            alternative: match alternative {
                Some(a) => Some(stmts_view(a@)),
                None => None,
            },
        },
        Expression::FunctionLiteral { parameters, body } => SpecExpression::FunctionLiteral {
            parameters: strings_view(parameters@),
            body: stmts_view(body@),
        },
        Expression::Call { function, arguments } => SpecExpression::Call {
            function: Box::new(expr_view(*function)),
            arguments: exprs_view(arguments@),
        },
    }
}

pub open spec fn stmt_view(s: Statement) -> SpecStatement
    decreases s,
{
    match s {
        Statement::Let { name, value } => SpecStatement::Let { name: name@, value: expr_view(value) },
        Statement::Return(e) => SpecStatement::Return(expr_view(e)),
        Statement::ExpressionStmt(e) => SpecStatement::ExpressionStmt(expr_view(e)),
    }
}

pub open spec fn stmts_view(v: Seq<Statement>) -> Seq<SpecStatement>
    decreases v,
{
    if v.len() == 0 {
        Seq::empty()
    } else {
        stmts_view(v.subrange(0, v.len() - 1)).push(stmt_view(v[v.len() - 1]))
    }
}

pub open spec fn exprs_view(v: Seq<Expression>) -> Seq<SpecExpression>
    decreases v,
{
    if v.len() == 0 {
        Seq::empty()
    } else {
        exprs_view(v.subrange(0, v.len() - 1)).push(expr_view(v[v.len() - 1]))
    }
}

impl View for Expression {
    type V = SpecExpression;

    open spec fn view(&self) -> SpecExpression {
        expr_view(*self)
    }
}

impl View for Statement {
    type V = SpecStatement;

    open spec fn view(&self) -> SpecStatement {
        stmt_view(*self)
    }
}

impl View for Program {
    type V = Seq<SpecStatement>;

    open spec fn view(&self) -> Seq<SpecStatement> {
        stmts_view(self.statements@)
    }
}

/// The view of a list with one more statement is the view of the list with
/// the view of that statement added.
pub proof fn lemma_stmts_view_push(v: Seq<Statement>, x: Statement)
    ensures
        stmts_view(v.push(x)) == stmts_view(v).push(stmt_view(x)),
        stmts_view(v).len() == v.len(),
    decreases v.len(),
{
    assert(v.push(x).subrange(0, v.len() as int) =~= v);
    lemma_stmts_view_len(v);
}

pub proof fn lemma_stmts_view_len(v: Seq<Statement>)
    ensures
        stmts_view(v).len() == v.len(),
    decreases v.len(),
{
    if v.len() > 0 {
        lemma_stmts_view_len(v.subrange(0, v.len() - 1));
    }
}

pub proof fn lemma_exprs_view_push(v: Seq<Expression>, x: Expression)
    ensures
        exprs_view(v.push(x)) == exprs_view(v).push(expr_view(x)),
{
    assert(v.push(x).subrange(0, v.len() as int) =~= v);
}

pub proof fn lemma_exprs_view_len(v: Seq<Expression>)
    ensures
        exprs_view(v).len() == v.len(),
    decreases v.len(),
{
    if v.len() > 0 {
        lemma_exprs_view_len(v.subrange(0, v.len() - 1));
    }
}

/// The view of a list of expressions holds the view of each expression at
/// its place.
pub proof fn lemma_exprs_view_index(v: Seq<Expression>, i: int)
    requires
        0 <= i < v.len(),
    ensures
        exprs_view(v).len() == v.len(),
        exprs_view(v)[i] == expr_view(v[i]),
    decreases v.len(),
{
    lemma_exprs_view_len(v);
    if i < v.len() - 1 {
        let w = v.subrange(0, v.len() - 1);
        lemma_exprs_view_index(w, i);
        assert(w[i] == v[i]);
    }
}

/// The view of a list of statements holds the view of each statement at its
/// place.
pub proof fn lemma_stmts_view_index(v: Seq<Statement>, i: int)
    requires
        0 <= i < v.len(),
    ensures
        stmts_view(v).len() == v.len(),
        stmts_view(v)[i] == stmt_view(v[i]),
    decreases v.len(),
{
    lemma_stmts_view_len(v);
    if i < v.len() - 1 {
        let w = v.subrange(0, v.len() - 1);
        lemma_stmts_view_index(w, i);
        assert(w[i] == v[i]);
    }
}

/// Copies an expression, keeping its view.
pub fn clone_expression(e: &Expression) -> (r: Expression)
    ensures
        r@ == e@,
    decreases e,
{
    match e {
        Expression::Identifier(s) => Expression::Identifier(s.clone()),
        Expression::IntegerLiteral(n) => Expression::IntegerLiteral(*n),
        Expression::StringLiteral(s) => Expression::StringLiteral(s.clone()),
        Expression::BooleanLiteral(b) => Expression::BooleanLiteral(*b),
        Expression::Prefix { operator, right } => Expression::Prefix {
            operator: operator.clone(),
            right: Box::new(clone_expression(right)),
        },
        Expression::Infix { left, operator, right } => Expression::Infix {
            left: Box::new(clone_expression(left)),
            operator: operator.clone(),
            right: Box::new(clone_expression(right)),
        },
        Expression::If { condition, consequence, alternative } => {
            let c = clone_expression(condition);
            let cons = clone_statements(consequence);
            let alt = match alternative {
                Some(a) => Some(clone_statements(a)),
                None => None,
            };
            Expression::If { condition: Box::new(c), consequence: cons, alternative: alt }
        },
        Expression::FunctionLiteral { parameters, body } => {
            let p = clone_strings(parameters);
            let b = clone_statements(body);
            Expression::FunctionLiteral { parameters: p, body: b }
        },
        Expression::Call { function, arguments } => {
            let f = clone_expression(function);
            let a = clone_expressions(arguments);
            Expression::Call { function: Box::new(f), arguments: a }
        },
    }
}

/// Copies a statement, keeping its view.
pub fn clone_statement(s: &Statement) -> (r: Statement)
    ensures
        r@ == s@,
    decreases s,
{
    match s {
        Statement::Let { name, value } => Statement::Let {
            name: name.clone(),
            value: clone_expression(value),
        },
        Statement::Return(e) => Statement::Return(clone_expression(e)),
        Statement::ExpressionStmt(e) => Statement::ExpressionStmt(clone_expression(e)),
    }
}

/// Copies a list of statements, keeping its view.
pub fn clone_statements(v: &Vec<Statement>) -> (r: Vec<Statement>)
    ensures
        stmts_view(r@) == stmts_view(v@),
    decreases v,
{
    let mut r: Vec<Statement> = Vec::new();
    let mut i: usize = 0;
    while i < v.len()
        invariant
            i <= v@.len(),
            stmts_view(r@) == stmts_view(v@.subrange(0, i as int)),
        decreases v@.len() - i,
    {
        let x = clone_statement(&v[i]);
        proof {
            lemma_stmts_view_push(r@, x);
            lemma_stmts_view_push(v@.subrange(0, i as int), v@[i as int]);
            assert(v@.subrange(0, i as int).push(v@[i as int]) =~= v@.subrange(0, i + 1));
        }
        r.push(x);
        i = i + 1;
    }
    assert(v@.subrange(0, i as int) =~= v@);
    r
}

/// Copies a list of expressions, keeping its view.
pub fn clone_expressions(v: &Vec<Expression>) -> (r: Vec<Expression>)
    ensures
        exprs_view(r@) == exprs_view(v@),
    decreases v,
{
    let mut r: Vec<Expression> = Vec::new();
    let mut i: usize = 0;
    while i < v.len()
        invariant
            i <= v@.len(),
            exprs_view(r@) == exprs_view(v@.subrange(0, i as int)),
        decreases v@.len() - i,
    {
        let x = clone_expression(&v[i]);
        proof {
            lemma_exprs_view_push(r@, x);
            lemma_exprs_view_push(v@.subrange(0, i as int), v@[i as int]);
            assert(v@.subrange(0, i as int).push(v@[i as int]) =~= v@.subrange(0, i + 1));
        }
        r.push(x);
        i = i + 1;
    }
    assert(v@.subrange(0, i as int) =~= v@);
    r
}

/// Copies a list of strings, keeping their characters.
pub fn clone_strings(v: &Vec<String>) -> (r: Vec<String>)
    ensures
        strings_view(r@) == strings_view(v@),
{
    let mut r: Vec<String> = Vec::new();
    let mut i: usize = 0;
    while i < v.len()
        invariant
            i <= v@.len(),
            r@.len() == i,
            forall|j: int| 0 <= j < i ==> r@[j]@ == v@[j]@,
        decreases v@.len() - i,
    {
        r.push(v[i].clone());
        i = i + 1;
    }
    assert(strings_view(r@) =~= strings_view(v@));
    r
}

impl Clone for Expression {
    fn clone(&self) -> (r: Self)
        ensures
            r@ == self@,
    {
        clone_expression(self)
    }
}

impl Clone for Statement {
    fn clone(&self) -> (r: Self)
        ensures
            r@ == self@,
    {
        clone_statement(self)
    }
}

impl Clone for Program {
    fn clone(&self) -> (r: Self)
        ensures
            r@ == self@,
    {
        Program { statements: clone_statements(&self.statements) }
    }
}

} // verus!
