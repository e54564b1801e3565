use vstd::prelude::*;
use vstd::string::*;

use crate::error::{ErrorKind, ErrorModel, LangError};
use crate::lexer::{prepend, prepend_all};
use crate::token::{render, Operator, Token, TokenType};

verus! {

/// An arithmetic expression tree.
#[derive(Debug, PartialEq, Eq)]
pub enum Expression {
    Number(i32),
    BinaryOp(BinOp),
}

/// An operator token with the two subtrees it combines.
#[derive(Debug, PartialEq, Eq)]
pub struct BinOp {
    pub operator: Token,
    pub left: Box<Expression>,
    pub right: Box<Expression>,
}

/// A statement, executed for its effect.
#[derive(Debug, PartialEq, Eq)]
pub enum Statement {
    Print(Expression),
}

/// A top-level construct of a program.
#[derive(Debug, PartialEq, Eq)]
pub enum Node {
    Expression(Expression),
    Statement(Statement),
}

/// Every operation in the tree holds an operator token.
pub open spec fn expression_well_formed(e: Expression) -> bool
    decreases e,
{
    match e {
        Expression::Number(_) => true,
        Expression::BinaryOp(b) => b.operator.token_type is Operator && expression_well_formed(
            *b.left,
        ) && expression_well_formed(*b.right),
    }
}

pub open spec fn node_well_formed(n: Node) -> bool {
    match n {
        Node::Expression(e) => expression_well_formed(e),
        Node::Statement(Statement::Print(e)) => expression_well_formed(e),
    }
}

/// The diagnostic that names token `t`.
pub open spec fn error_at(kind: ErrorKind, t: Token) -> ErrorModel {
    ErrorModel { kind, line: t.line as int, col: t.col as int, found: render(t.token_type@) }
}

pub open spec fn print_word() -> Seq<char> {
    seq!['p', 'r', 'i', 'n', 't']
}

pub open spec fn is_print(t: Token) -> bool {
    &&& t.token_type is Word
    &&& t.token_type->Word_0@ == print_word()
}

/// The expression that starts at `pos`, with the cursor where parsing left it;
/// `None` where no number stands at `pos`.
pub open spec fn parse_expr(toks: Seq<Token>, pos: int) -> Result<
    Option<(Expression, int)>,
    ErrorModel,
>
    decreases toks.len() - pos,
{
    if pos < 0 || pos >= toks.len() || !(toks[pos].token_type is Number) {
        Ok(None)
    } else {
        let lit = Expression::Number(toks[pos].token_type->Number_0);
        if pos + 1 < toks.len() && toks[pos + 1].token_type is Operator {
            if pos + 2 >= toks.len() {
                Err(error_at(ErrorKind::MissingOperand, toks[pos + 1]))
            } else {
                match parse_expr(toks, pos + 2) {
                    Err(e) => Err(e),
                    Ok(None) => Err(error_at(ErrorKind::InvalidSyntax, toks[pos + 2])),
                    Ok(Some((right, q))) => Ok(
                        Some(
                            (
                                Expression::BinaryOp(
                                    BinOp {
                                        operator: toks[pos + 1],
                                        left: Box::new(lit),
                                        right: Box::new(right),
                                    },
                                ),
                                q + 1,
                            ),
                        ),
                    ),
                }
            }
        } else {
            Ok(Some((lit, pos)))
        }
    }
}

/// The print statement that starts at `pos`; `None` where there is none.
pub open spec fn parse_statement(toks: Seq<Token>, pos: int) -> Result<
    Option<(Statement, int)>,
    ErrorModel,
> {
    if 0 <= pos < toks.len() && is_print(toks[pos]) {
        match parse_expr(toks, pos + 1) {
            Err(e) => Err(e),
            Ok(None) => Ok(None),
            Ok(Some((e, q))) => Ok(Some((Statement::Print(e), q))),
        }
    } else {
        Ok(None)
    }
}

/// The token that a syntax error at `pos` names: the one after a `print`
/// that no expression follows, else the one at `pos`.
pub open spec fn offending_index(toks: Seq<Token>, pos: int) -> int {
    if is_print(toks[pos]) && pos + 1 < toks.len() {
        pos + 1
    } else {
        pos
    }
}

/// The top-level node that starts at `pos < toks.len()`, with the cursor after it.
pub open spec fn parse_node(toks: Seq<Token>, pos: int) -> Result<(Node, int), ErrorModel> {
    match parse_expr(toks, pos) {
        Err(e) => Err(e),
        Ok(Some((e, q))) => Ok((Node::Expression(e), q)),
        Ok(None) => match parse_statement(toks, pos) {
            Err(e) => Err(e),
            Ok(Some((s, q))) => Ok((Node::Statement(s), q)),
            Ok(None) => Err(error_at(ErrorKind::InvalidSyntax, toks[offending_index(toks, pos)])),
        },
    }
}

/// The nodes from `pos` on; each is followed by one step of the cursor.
pub open spec fn build_from(toks: Seq<Token>, pos: int) -> Result<Seq<Node>, ErrorModel>
    decreases 2 * toks.len() + 1 - pos,
    via build_from_decreases
{
    if pos < 0 || pos >= toks.len() {
        Ok(seq![])
    } else {
        match parse_node(toks, pos) {
            Err(e) => Err(e),
            Ok((n, q)) => prepend(n, build_from(toks, q + 1)),
        }
    }
}

/// The nodes of a whole token sequence.
pub open spec fn tree_of(toks: Seq<Token>) -> Result<Seq<Node>, ErrorModel> {
    build_from(toks, 0)
}

/// A parsed expression leaves the cursor at or after where it started and
/// below twice the length.
pub proof fn lemma_parse_expr_cursor(toks: Seq<Token>, pos: int)
    ensures
        match parse_expr(toks, pos) {
            Ok(Some((e, q))) => pos <= q <= 2 * toks.len() - pos - 1 && expression_well_formed(e),
            _ => true,
        },
    decreases toks.len() - pos,
{
    if 0 <= pos < toks.len() && toks[pos].token_type is Number && pos + 2 < toks.len() {
        lemma_parse_expr_cursor(toks, pos + 2);
        let lit = Expression::Number(toks[pos].token_type->Number_0);
        assert(expression_well_formed(lit));
        match parse_expr(toks, pos + 2) {
            Ok(Some((right, q))) => {
                if toks[pos + 1].token_type is Operator {
                    let b = BinOp { operator: toks[pos + 1], left: Box::new(lit), right: Box::new(right) };
                    assert(expression_well_formed(Expression::BinaryOp(b)));
                }
            },
            _ => {},
        }
    }
}

#[via_fn]
proof fn build_from_decreases(toks: Seq<Token>, pos: int) {
    if 0 <= pos < toks.len() {
        lemma_parse_expr_cursor(toks, pos);
        lemma_parse_expr_cursor(toks, pos + 1);
    }
}


pub open spec fn nodes_well_formed(ns: Seq<Node>) -> bool {
    forall|i: int| 0 <= i < ns.len() ==> node_well_formed(#[trigger] ns[i])
}

fn diagnostic(kind: ErrorKind, t: &Token) -> (r: LangError)
    ensures
        r@ == error_at(kind, *t),
{
    LangError { kind, line: t.line, col: t.col, found: t.get_token_value() }
}

/// The tree builder: the tokens, the nodes built from them, and the cursor.
pub struct Ast {
    pub tokens: Vec<Token>,
    pub nodes: Vec<Node>,
    pub expos: usize,
}

impl Ast {
    pub fn new() -> (r: Self)
        ensures
            r.tokens@.len() == 0,
            r.nodes@.len() == 0,
            r.expos == 0,
    {
        Ast { tokens: Vec::new(), nodes: Vec::new(), expos: 0 }
    }

    fn expression(&self, pos: usize) -> (r: Result<Option<(Expression, usize)>, LangError>)
        requires
            self.tokens@.len() <= usize::MAX / 2,
        ensures
            match parse_expr(self.tokens@, pos as int) {
                Ok(Some((e, q))) => r matches Ok(Some((x, p))) && x == e && p == q,
                Ok(None) => r matches Ok(None),
                Err(m) => r matches Err(x) && x@ == m,
            },
        decreases self.tokens@.len() - pos,
    {
        let len = self.tokens.len();
        if pos >= len {
            return Ok(None);
        }
        let n = match self.tokens[pos].token_type {
            TokenType::Number(n) => n,
            _ => {
                return Ok(None);
            },
        };
        if pos + 1 < len {
            let t = &self.tokens[pos + 1];
            if let TokenType::Operator(op) = t.token_type {
                if pos + 2 >= len {
                    return Err(diagnostic(ErrorKind::MissingOperand, t));
                }
                proof {
                    lemma_parse_expr_cursor(self.tokens@, pos + 2);
                }
                return match self.expression(pos + 2) {
                    Err(e) => Err(e),
                    Ok(None) => Err(diagnostic(ErrorKind::InvalidSyntax, &self.tokens[pos + 2])),
                    Ok(Some((right, q))) => {
                        let operator = Token { token_type: TokenType::Operator(op), line: t.line, col: t.col };
                        Ok(
                            Some(
                                (
                                    Expression::BinaryOp(
                                        BinOp {
                                            operator,
                                            left: Box::new(Expression::Number(n)),
                                            right: Box::new(right),
                                        },
                                    ),
                                    q + 1,
                                ),
                            ),
                        )
                    },
                };
            }
        }
        Ok(Some((Expression::Number(n), pos)))
    }

    /// Whether the token at `pos` is the word `print`.
    fn equal_print(&self, pos: usize) -> (r: bool)
        requires
            pos < self.tokens@.len(),
        ensures
            r == is_print(self.tokens@[pos as int]),
    {
        match &self.tokens[pos].token_type {
            TokenType::Word(w) => {
                let print = String::from_str("print");
                proof {
                    reveal_strlit("print");
                    assert(print@ =~= print_word());
                }
                *w == print
            },
            _ => false,
        }
    }

    fn statement(&self, pos: usize) -> (r: Result<Option<(Statement, usize)>, LangError>)
        requires
            pos < self.tokens@.len() <= usize::MAX / 2,
        ensures
            match parse_statement(self.tokens@, pos as int) {
                Ok(Some((s, q))) => r matches Ok(Some((x, p))) && x == s && p == q,
                Ok(None) => r matches Ok(None),
                Err(m) => r matches Err(x) && x@ == m,
            },
    {
        if !self.equal_print(pos) {
            return Ok(None);
        }
        match self.expression(pos + 1) {
            Err(e) => Err(e),
            Ok(None) => Ok(None),
            Ok(Some((e, q))) => Ok(Some((Statement::Print(e), q))),
        }
    }

    fn syntax_invalid(&self, pos: usize) -> (r: LangError)
        requires
            pos < self.tokens@.len() <= usize::MAX / 2,
        ensures
            r@ == error_at(ErrorKind::InvalidSyntax, self.tokens@[offending_index(self.tokens@, pos as int)]),
    {
        if self.equal_print(pos) && pos + 1 < self.tokens.len() {
            diagnostic(ErrorKind::InvalidSyntax, &self.tokens[pos + 1])
        } else {
            diagnostic(ErrorKind::InvalidSyntax, &self.tokens[pos])
        }
    }

    fn node(&self, pos: usize) -> (r: Result<(Node, usize), LangError>)
        requires
            pos < self.tokens@.len() <= usize::MAX / 2,
        ensures
            match parse_node(self.tokens@, pos as int) {
                Ok((n, q)) => r matches Ok((x, p)) && x == n && p == q,
                Err(m) => r matches Err(x) && x@ == m,
            },
    {
        match self.expression(pos) {
            Err(e) => Err(e),
            Ok(Some((e, q))) => Ok((Node::Expression(e), q)),
            Ok(None) => match self.statement(pos) {
                Err(e) => Err(e),
                Ok(Some((s, q))) => Ok((Node::Statement(s), q)),
                Ok(None) => Err(self.syntax_invalid(pos)),
            },
        }
    }

    /// Builds the nodes of `tokens`, replacing those held before. On success
    /// they are those of `tree_of(tokens@)`, each well formed; on failure they
    /// are cleared and the error is the one `tree_of` reports. The cursor can
    /// run up to twice the number of tokens, which bounds that number.
    pub fn build_tree(&mut self, tokens: Vec<Token>) -> (r: Result<(), LangError>)
        requires
            tokens@.len() <= usize::MAX / 2,
        ensures
            match r {
                Ok(()) => tree_of(tokens@) == Ok::<Seq<Node>, ErrorModel>(final(self).nodes@)
                    && nodes_well_formed(final(self).nodes@),
                Err(e) => tree_of(tokens@) == Err::<Seq<Node>, ErrorModel>(e@)
                    && final(self).nodes@.len() == 0,
            },
    {
        let ghost toks = tokens@;
        self.tokens = tokens;
        self.nodes = Vec::new();
        self.expos = 0;
        assert(prepend_all(self.nodes@, build_from(toks, 0)) == tree_of(toks)) by {
            match tree_of(toks) {
                Ok(xs) => assert(seq![] + xs =~= xs),
                Err(_) => {},
            }
        }
        while self.expos < self.tokens.len()
            invariant
                self.tokens@ == toks,
                toks == tokens@,
                toks.len() <= usize::MAX / 2,
                self.expos <= 2 * toks.len(),
                prepend_all(self.nodes@, build_from(toks, self.expos as int)) == tree_of(toks),
                nodes_well_formed(self.nodes@),
            decreases 2 * toks.len() + 1 - self.expos,
        {
            proof {
                lemma_parse_expr_cursor(toks, self.expos as int);
                lemma_parse_expr_cursor(toks, self.expos + 1);
            }
            match self.node(self.expos) {
                Err(e) => {
                    assert(build_from(toks, self.expos as int) == Err::<Seq<Node>, ErrorModel>(e@));
                    self.nodes = Vec::new();
                    return Err(e);
                },
                Ok((n, q)) => {
                    let ghost old_nodes = self.nodes@;
                    let ghost rest = build_from(toks, q + 1);
                    self.nodes.push(n);
                    proof {
                        match rest {
                            Ok(xs) => assert(old_nodes + (seq![n] + xs) =~= self.nodes@ + xs),
                            Err(_) => {},
                        }
                        assert forall|i: int| 0 <= i < self.nodes@.len() implies node_well_formed(
                            #[trigger] self.nodes@[i],
                        ) by {
                            if i < old_nodes.len() {
                                assert(self.nodes@[i] == old_nodes[i]);
                            }
                        }
                    }
                    self.expos = q + 1;
                },
            }
        }
        assert(self.nodes@ + seq![] =~= self.nodes@);
        Ok(())
    }
}


pub open spec fn apply(op: Operator, l: int, r: int) -> int {
    match op {
        Operator::Plus => l + r,
        Operator::Minus => l - r,
        Operator::Mul => l * r,
    }
}

/// The value of an expression: each operation combines the values of its
/// subtrees, left first, and fails where the result leaves the `i32` range.
pub open spec fn eval_expr(e: Expression) -> Result<int, ErrorModel>
    decreases e,
{
    match e {
        Expression::Number(n) => Ok(n as int),
        Expression::BinaryOp(b) => match b.operator.token_type {
            TokenType::Operator(op) => match eval_expr(*b.left) {
                Err(x) => Err(x),
                Ok(l) => match eval_expr(*b.right) {
                    Err(x) => Err(x),
                    Ok(r) => if i32::MIN <= apply(op, l, r) <= i32::MAX {
                        Ok(apply(op, l, r))
                    } else {
                        Err(error_at(ErrorKind::ArithmeticOverflow, b.operator))
                    },
                },
            },
            _ => Err(error_at(ErrorKind::UnknownOperator, b.operator)),
        },
    }
}

/// The value that a statement prints.
pub open spec fn execute_stmt(s: Statement) -> Result<int, ErrorModel> {
    match s {
        Statement::Print(e) => eval_expr(e),
    }
}

impl Expression {
    pub fn eval(&self) -> (r: Result<i32, LangError>)
        ensures
            match r {
                Ok(v) => eval_expr(*self) == Ok::<int, ErrorModel>(v as int),
                Err(x) => eval_expr(*self) == Err::<int, ErrorModel>(x@),
            },
        decreases self,
    {
        match self {
            Expression::Number(n) => Ok(*n),
            Expression::BinaryOp(b) => match b.operator.token_type {
                TokenType::Operator(op) => {
                    let l = match b.left.eval() {
                        Err(x) => {
                            return Err(x);
                        },
                        Ok(v) => v as i64,
                    };
                    let r = match b.right.eval() {
                        Err(x) => {
                            return Err(x);
                        },
                        Ok(v) => v as i64,
                    };
                    assert(i32::MIN * i32::MAX <= l * r <= i32::MIN * i32::MIN) by (nonlinear_arith)
                        requires
                            i32::MIN <= l <= i32::MAX,
                            i32::MIN <= r <= i32::MAX,
                    ;
                    let v: i64 = match op {
                        Operator::Plus => l + r,
                        Operator::Minus => l - r,
                        Operator::Mul => l * r,
                    };
                    if i32::MIN as i64 <= v && v <= i32::MAX as i64 {
                        Ok(v as i32)
                    } else {
                        Err(diagnostic(ErrorKind::ArithmeticOverflow, &b.operator))
                    }
                },
                _ => Err(diagnostic(ErrorKind::UnknownOperator, &b.operator)),
            },
        }
    }
}

impl Statement {
    /// Runs the statement and returns the value it prints.
    pub fn execute(&self) -> (r: Result<i32, LangError>)
        ensures
            match r {
                Ok(v) => execute_stmt(*self) == Ok::<int, ErrorModel>(v as int),
                Err(x) => execute_stmt(*self) == Err::<int, ErrorModel>(x@),
            },
    {
        match self {
            Statement::Print(e) => e.eval(),
        }
    }
}

} // verus!
