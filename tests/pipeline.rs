use minilang::ast::{Ast, BinOp, Expression, Node, Statement};
use minilang::error::{ErrorKind, LangError};
use minilang::lexer::Lexer;
use minilang::parser::Parser;
use minilang::token::{Operator, Token, TokenType};

fn lex(src: &str) -> Result<Vec<Token>, LangError> {
    let mut lexer = Lexer::new();
    lexer.lex(src)?;
    Ok(lexer.tokens)
}

fn kinds(src: &str) -> Vec<TokenType> {
    lex(src).unwrap().into_iter().map(|t| t.token_type).collect()
}

fn tree(src: &str) -> Result<Vec<Node>, LangError> {
    let mut ast = Ast::new();
    ast.build_tree(lex(src)?)?;
    Ok(ast.nodes)
}

fn run(src: &str) -> Result<Vec<i32>, LangError> {
    let nodes = tree(src)?;
    let mut parser = Parser::new();
    parser.parse(nodes)
}

fn op(operator: Operator, line: usize, col: usize) -> Token {
    Token { token_type: TokenType::Operator(operator), line, col }
}

fn bin(operator: Token, left: Expression, right: Expression) -> Expression {
    Expression::BinaryOp(BinOp { operator, left: Box::new(left), right: Box::new(right) })
}

fn word(w: &str) -> TokenType {
    TokenType::Word(w.to_string())
}

#[test]
fn print_with_two_operators() {
    assert_eq!(
        kinds("print 2+2*2"),
        vec![
            word("print"),
            TokenType::Number(2),
            TokenType::Operator(Operator::Plus),
            TokenType::Number(2),
            TokenType::Operator(Operator::Mul),
            TokenType::Number(2),
        ]
    );
    let expected = bin(
        op(Operator::Plus, 1, 7),
        Expression::Number(2),
        bin(op(Operator::Mul, 1, 9), Expression::Number(2), Expression::Number(2)),
    );
    assert_eq!(tree("print 2+2*2").unwrap(), vec![Node::Statement(Statement::Print(expected))]);
    assert_eq!(run("print 2+2*2").unwrap(), vec![6]);
}

#[test]
fn print_single_number() {
    assert_eq!(
        tree("print 5").unwrap(),
        vec![Node::Statement(Statement::Print(Expression::Number(5)))]
    );
    assert_eq!(run("print 5").unwrap(), vec![5]);
}

#[test]
fn bare_expression_prints_nothing() {
    assert_eq!(tree("5").unwrap(), vec![Node::Expression(Expression::Number(5))]);
    assert_eq!(run("5").unwrap(), Vec::<i32>::new());
}

#[test]
fn operator_without_operand() {
    let e = run("print 2+").unwrap_err();
    assert_eq!(e.kind, ErrorKind::MissingOperand);
    assert_eq!((e.line, e.col, e.found.as_str()), (1, 7, "+"));
}

#[test]
fn unknown_character() {
    let e = lex("print @").unwrap_err();
    assert_eq!(e.kind, ErrorKind::UnknownToken);
    assert_eq!((e.line, e.col, e.found.as_str()), (1, 6, "@"));
}

#[test]
fn two_print_statements() {
    assert_eq!(tree("print 2 print 3").unwrap().len(), 2);
    assert_eq!(run("print 2 print 3").unwrap(), vec![2, 3]);
}

#[test]
fn lexing_twice_gives_the_same_tokens() {
    let src = "print 12 + abc * 7\nprint 3";
    assert_eq!(lex(src).unwrap(), lex(src).unwrap());
}

#[test]
fn whitespace_changes_positions_only() {
    let a = lex("print 2+3*x").unwrap();
    let b = lex("print \t 2 +\t\t3   *  x").unwrap();
    assert_eq!(kinds("print 2+3*x"), kinds("print \t 2 +\t\t3   *  x"));
    assert_ne!(a, b);
    assert_eq!(kinds("1 2"), kinds("1\t\t 2"));
}

#[test]
fn rendered_tokens_lex_back() {
    for t in lex("print 2147483647 + x_1 * 0 - $y hé").unwrap() {
        let value = t.get_token_value();
        let again = lex(&value).unwrap();
        assert_eq!(again, vec![Token { token_type: t.token_type, line: 1, col: 0 }]);
    }
}

fn check_operators(e: &Expression) {
    if let Expression::BinaryOp(b) = e {
        assert!(matches!(b.operator.token_type, TokenType::Operator(_)));
        check_operators(&b.left);
        check_operators(&b.right);
    }
}

#[test]
fn every_operation_holds_an_operator() {
    for n in tree("1+2-3*4 print 5*6-7 8").unwrap() {
        match &n {
            Node::Expression(e) => check_operators(e),
            Node::Statement(Statement::Print(e)) => check_operators(e),
        }
    }
}

#[test]
fn chains_nest_to_the_right() {
    let expected = bin(
        op(Operator::Mul, 1, 1),
        Expression::Number(2),
        bin(op(Operator::Plus, 1, 3), Expression::Number(2), Expression::Number(2)),
    );
    assert_eq!(tree("2*2+2").unwrap(), vec![Node::Expression(expected)]);
    assert_eq!(run("print 2*2+2").unwrap(), vec![8]);
    assert_eq!(run("print 10-4-3").unwrap(), vec![9]);
    assert_eq!(run("print 1-2*3").unwrap(), vec![-5]);
}

#[test]
fn cursor_steps_past_a_statement_after_an_operation() {
    assert_eq!(
        tree("print 2+2 print 3").unwrap(),
        vec![
            Node::Statement(Statement::Print(bin(
                op(Operator::Plus, 1, 7),
                Expression::Number(2),
                Expression::Number(2)
            ))),
            Node::Expression(Expression::Number(3)),
        ]
    );
    assert_eq!(run("print 2+2 print 3").unwrap(), vec![4]);
}

#[test]
fn largest_number_and_overflow() {
    assert_eq!(kinds("2147483647"), vec![TokenType::Number(2147483647)]);
    assert_eq!(kinds("000012"), vec![TokenType::Number(12)]);
    let e = lex("print 2147483648").unwrap_err();
    assert_eq!(e.kind, ErrorKind::NumericOverflow);
    assert_eq!((e.line, e.col, e.found.as_str()), (1, 6, "2147483648"));
    assert_eq!(lex("99999999999999999999").unwrap_err().kind, ErrorKind::NumericOverflow);
}

#[test]
fn invalid_syntax_names_the_token() {
    let e = tree("print print").unwrap_err();
    assert_eq!(e.kind, ErrorKind::InvalidSyntax);
    assert_eq!((e.line, e.col, e.found.as_str()), (1, 6, "print"));
    let e = tree("+ 1").unwrap_err();
    assert_eq!((e.kind, e.col, e.found.as_str()), (ErrorKind::InvalidSyntax, 0, "+"));
    let e = tree("print").unwrap_err();
    assert_eq!((e.kind, e.col, e.found.as_str()), (ErrorKind::InvalidSyntax, 0, "print"));
    let e = tree("1 + print").unwrap_err();
    assert_eq!((e.kind, e.col, e.found.as_str()), (ErrorKind::InvalidSyntax, 4, "print"));
}

#[test]
fn non_operator_in_an_operation() {
    let e = bin(
        Token { token_type: word("x"), line: 3, col: 4 },
        Expression::Number(1),
        Expression::Number(2),
    );
    let err = e.eval().unwrap_err();
    assert_eq!((err.kind, err.line, err.col, err.found.as_str()), (ErrorKind::UnknownOperator, 3, 4, "x"));
}

#[test]
fn arithmetic_overflow() {
    let e = run("print 2147483647+1").unwrap_err();
    assert_eq!((e.kind, e.col, e.found.as_str()), (ErrorKind::ArithmeticOverflow, 16, "+"));
    assert_eq!(run("print 0-2147483647-1").unwrap(), vec![-2147483646]);
    assert_eq!(run("print 65536*32768").unwrap_err().kind, ErrorKind::ArithmeticOverflow);
    assert_eq!(run("print 46340*46340").unwrap(), vec![2147395600]);
}

#[test]
fn token_values() {
    let t = |token_type| Token { token_type, line: 1, col: 0 };
    assert_eq!(t(TokenType::Number(0)).get_token_value(), "0");
    assert_eq!(t(TokenType::Number(907)).get_token_value(), "907");
    assert_eq!(t(TokenType::Number(-42)).get_token_value(), "-42");
    assert_eq!(t(TokenType::Number(i32::MIN)).get_token_value(), "-2147483648");
    assert_eq!(t(word("abc")).get_token_value(), "abc");
    assert_eq!(t(TokenType::Operator(Operator::Plus)).get_token_value(), "+");
    assert_eq!(t(TokenType::Operator(Operator::Minus)).get_token_value(), "-");
    assert_eq!(t(TokenType::Operator(Operator::Mul)).get_token_value(), "*");
}

#[test]
fn lines_and_columns() {
    let toks = lex("print 1\n  x\r\n*").unwrap();
    let pos: Vec<(usize, usize)> = toks.iter().map(|t| (t.line, t.col)).collect();
    assert_eq!(pos, vec![(1, 0), (1, 6), (2, 2), (3, 0)]);
    let e = lex("1\n\t#").unwrap_err();
    assert_eq!((e.kind, e.line, e.col), (ErrorKind::UnknownToken, 2, 1));
}

#[test]
fn words() {
    assert_eq!(kinds("$abc _x1 héllo"), vec![word("$abc"), word("_x1"), word("héllo")]);
    assert_eq!(kinds("a1+2"), vec![word("a1"), TokenType::Operator(Operator::Plus), TokenType::Number(2)]);
    assert_eq!(kinds("12ab"), vec![TokenType::Number(12), word("ab")]);
    assert_eq!(kinds("a$"), vec![word("a"), word("$")]);
    assert_eq!(lex("1.5").unwrap_err().found, ".");
}

#[test]
fn lexer_starts_afresh() {
    let mut lexer = Lexer::new();
    lexer.lex("1 2").unwrap();
    lexer.lex("3").unwrap();
    assert_eq!(lexer.tokens.len(), 1);
    assert!(lexer.lex("#").is_err());
    assert!(lexer.tokens.is_empty());
    lexer.add_token(TokenType::Number(9));
    assert_eq!(lexer.tokens.len(), 1);
}

#[test]
fn empty_input() {
    assert!(lex("").unwrap().is_empty());
    assert!(lex(" \n\t").unwrap().is_empty());
    assert!(tree("").unwrap().is_empty());
    assert_eq!(run("").unwrap(), Vec::<i32>::new());
}

#[test]
fn whitespace_inserted_or_removed_at_a_boundary() {
    assert_eq!(kinds("2+3"), kinds("2 + 3"));
    assert_eq!(kinds("print 2*x"), kinds("print 2 *\tx"));
    assert_eq!(kinds("a$b"), kinds("a $b"));
    assert_ne!(kinds("ab"), kinds("a b"));
}

#[test]
fn digits_after_letters_stay_in_the_word() {
    assert_eq!(kinds("a2147483648"), vec![word("a2147483648")]);
}
