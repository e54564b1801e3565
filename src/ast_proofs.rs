use vstd::prelude::*;

use crate::ast::{
    build_from, eval_expr, expression_well_formed, lemma_parse_expr_cursor, node_well_formed,
    nodes_well_formed, parse_expr, tree_of, BinOp, Expression, Node,
};
use crate::error::{ErrorKind, ErrorModel};
use crate::token::Token;

verus! {

proof fn lemma_build_from_well_formed(toks: Seq<Token>, pos: int)
    ensures
        build_from(toks, pos) matches Ok(ns) ==> nodes_well_formed(ns),
    decreases 2 * toks.len() + 1 - pos,
{
    if 0 <= pos < toks.len() {
        lemma_parse_expr_cursor(toks, pos);
        lemma_parse_expr_cursor(toks, pos + 1);
        match crate::ast::parse_node(toks, pos) {
            Ok((n, q)) => {
                lemma_build_from_well_formed(toks, q + 1);
                match build_from(toks, q + 1) {
                    Ok(rest) => {
                        let ns = seq![n] + rest;
                        assert forall|i: int| 0 <= i < ns.len() implies node_well_formed(
                            #[trigger] ns[i],
                        ) by {
                            if i > 0 {
                                assert(ns[i] == rest[i - 1]);
                            }
                        }
                    },
                    Err(_) => {},
                }
            },
            Err(_) => {},
        }
    }
}

/// Every binary operation that the tree builder produces holds an operator
/// token, in expressions and in statements alike.
pub proof fn lemma_tree_well_formed(toks: Seq<Token>)
    ensures
        tree_of(toks) matches Ok(ns) ==> nodes_well_formed(ns),
{
    lemma_build_from_well_formed(toks, 0);
}

/// A well-formed expression never fails for want of an operator: its
/// evaluation either succeeds or reports an arithmetic overflow.
pub proof fn lemma_well_formed_eval(e: Expression)
    requires
        expression_well_formed(e),
    ensures
        eval_expr(e) matches Err(x) ==> x.kind == ErrorKind::ArithmeticOverflow,
    decreases e,
{
    if let Expression::BinaryOp(b) = e {
        lemma_well_formed_eval(*b.left);
        lemma_well_formed_eval(*b.right);
    }
}

/// Three numbers joined by two operators nest to the right, whatever the
/// operators: `n1 op1 n2 op2 n3` is `op1(n1, op2(n2, n3))`.
pub proof fn lemma_right_nesting(toks: Seq<Token>)
    requires
        toks.len() == 5,
        toks[0].token_type is Number,
        toks[1].token_type is Operator,
        toks[2].token_type is Number,
        toks[3].token_type is Operator,
        toks[4].token_type is Number,
    ensures
        tree_of(toks) == Ok::<Seq<Node>, ErrorModel>(
            seq![
                Node::Expression(
                    Expression::BinaryOp(
                        BinOp {
                            operator: toks[1],
                            left: Box::new(Expression::Number(toks[0].token_type->Number_0)),
                            right: Box::new(
                                Expression::BinaryOp(
                                    BinOp {
                                        operator: toks[3],
                                        left: Box::new(Expression::Number(toks[2].token_type->Number_0)),
                                        right: Box::new(Expression::Number(toks[4].token_type->Number_0)),
                                    },
                                ),
                            ),
                        },
                    ),
                ),
            ],
        ),
{
    let inner = Expression::BinaryOp(
        BinOp {
            operator: toks[3],
            left: Box::new(Expression::Number(toks[2].token_type->Number_0)),
            right: Box::new(Expression::Number(toks[4].token_type->Number_0)),
        },
    );
    let outer = Expression::BinaryOp(
        BinOp {
            operator: toks[1],
            left: Box::new(Expression::Number(toks[0].token_type->Number_0)),
            right: Box::new(inner),
        },
    );
    assert(parse_expr(toks, 4) == Ok::<Option<(Expression, int)>, ErrorModel>(
        Some((Expression::Number(toks[4].token_type->Number_0), 4)),
    ));
    assert(parse_expr(toks, 2) == Ok::<Option<(Expression, int)>, ErrorModel>(Some((inner, 5))));
    assert(parse_expr(toks, 0) == Ok::<Option<(Expression, int)>, ErrorModel>(Some((outer, 6))));
    assert(build_from(toks, 7) == Ok::<Seq<Node>, ErrorModel>(seq![]));
    assert(seq![Node::Expression(outer)] + seq![] =~= seq![Node::Expression(outer)]);
}

} // verus!
