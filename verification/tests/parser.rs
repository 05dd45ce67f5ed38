use scolang::ast::{ASTNode, Parser, SyntaxError};
use scolang::token::{Lexer, Type};

fn parse_source(source: &str) -> Result<ASTNode, SyntaxError> {
    let mut lexer = Lexer::new();
    lexer.tokenize(source);
    let mut parser = Parser::new(lexer.return_tok());
    parser.parse()
}

fn statements(node: &ASTNode) -> &Vec<ASTNode> {
    match node {
        ASTNode::Program(ss) => ss,
        other => panic!("expected a Program, got {:?}", other),
    }
}

#[test]
fn var_declaration_with_initializer() {
    let ast = parse_source("VARint x = 5; END").unwrap();
    let ss = statements(&ast);
    assert_eq!(ss.len(), 1);
    match &ss[0] {
        ASTNode::VariableDeclaration { identifier, initializer, line, var_type } => {
            assert_eq!(identifier, "x");
            assert_eq!(*var_type, Some(Type::Int));
            assert_eq!(*line, 1);
            match initializer.as_deref() {
                Some(ASTNode::Number(text, _)) => assert_eq!(text, "5"),
                other => panic!("expected a number initializer, got {:?}", other),
            }
        }
        other => panic!("expected a declaration, got {:?}", other),
    }
}

#[test]
fn var_declaration_without_initializer() {
    let ast = parse_source("VARint x; END").unwrap();
    match &statements(&ast)[0] {
        ASTNode::VariableDeclaration { initializer, .. } => assert!(initializer.is_none()),
        other => panic!("expected a declaration, got {:?}", other),
    }
}

#[test]
fn string_declaration_parses() {
    let ast = parse_source("VARstr s = \"hi\"; END").unwrap();
    match &statements(&ast)[0] {
        ASTNode::VariableDeclaration { identifier, initializer, var_type, .. } => {
            assert_eq!(identifier, "s");
            assert_eq!(*var_type, Some(Type::Str));
            match initializer.as_deref() {
                Some(ASTNode::StringLiteral(text, _)) => assert_eq!(text, "hi"),
                other => panic!("expected a string initializer, got {:?}", other),
            }
        }
        other => panic!("expected a declaration, got {:?}", other),
    }
}

#[test]
fn display_statements_parse() {
    let ast = parse_source("DISPLAY a; DISPLAYnumeric b; DISPLAYstring c; END").unwrap();
    let ss = statements(&ast);
    assert!(matches!(&ss[0], ASTNode::DisplayStatement(id, _) if id == "a"));
    assert!(matches!(&ss[1], ASTNode::DisplayIntStatement(id, _) if id == "b"));
    assert!(matches!(&ss[2], ASTNode::DisplayStringStatement(id, _) if id == "c"));
}

#[test]
fn left_flat_associativity() {
    // `1 + 2 * 3` folds strictly left to right with one precedence level:
    // the tree is `(1 + 2) * 3`, not the conventional-precedence tree.
    let ast = parse_source("x = 1 + 2 * 3; END").unwrap();
    match &statements(&ast)[0] {
        ASTNode::ExpressionStatement { expression, identifier, .. } => {
            assert_eq!(identifier, "x");
            match expression.as_ref() {
                ASTNode::BinaryOp { operator, left, right, .. } => {
                    assert_eq!(operator, "*");
                    assert!(matches!(right.as_ref(), ASTNode::Number(t, _) if t == "3"));
                    match left.as_ref() {
                        ASTNode::BinaryOp { operator, left, right, .. } => {
                            assert_eq!(operator, "+");
                            assert!(matches!(left.as_ref(), ASTNode::Number(t, _) if t == "1"));
                            assert!(matches!(right.as_ref(), ASTNode::Number(t, _) if t == "2"));
                        }
                        other => panic!("expected the inner sum on the left, got {:?}", other),
                    }
                }
                other => panic!("expected a binary operation, got {:?}", other),
            }
        }
        other => panic!("expected an assignment, got {:?}", other),
    }
}

#[test]
fn grouping_parentheses_bind_first() {
    let ast = parse_source("x = (1 + 2) * 3; END").unwrap();
    match &statements(&ast)[0] {
        ASTNode::ExpressionStatement { expression, .. } => match expression.as_ref() {
            ASTNode::BinaryOp { operator, left, .. } => {
                assert_eq!(operator, "*");
                assert!(matches!(left.as_ref(), ASTNode::BinaryOp { operator, .. } if operator == "+"));
            }
            other => panic!("expected a binary operation, got {:?}", other),
        },
        other => panic!("expected an assignment, got {:?}", other),
    }
}

#[test]
fn comparison_operators_fold_like_arithmetic() {
    let ast = parse_source("x = a < b + 1; END").unwrap();
    match &statements(&ast)[0] {
        ASTNode::ExpressionStatement { expression, .. } => match expression.as_ref() {
            ASTNode::BinaryOp { operator, left, .. } => {
                assert_eq!(operator, "+");
                assert!(matches!(left.as_ref(), ASTNode::BinaryOp { operator, .. } if operator == "<"));
            }
            other => panic!("expected a binary operation, got {:?}", other),
        },
        other => panic!("expected an assignment, got {:?}", other),
    }
}

#[test]
fn missing_semicolon_fails_at_end_marker_line() {
    // The declaration never closes, so the parser fails on the end marker's
    // line instead of returning a partial declaration.
    let err = parse_source("VARint x = 5 END").unwrap_err();
    assert_eq!(err.message, "Expected ';' after variable declaration.");
    assert_eq!(err.line, 1);
}

#[test]
fn nested_conditional_shape() {
    let src = "IF () a THEN VARint x = 1; ELIF b THEN VARint x = 2; ELSE VARint x = 3; END-IF END";
    let ast = parse_source(src).unwrap();
    let ss = statements(&ast);
    assert_eq!(ss.len(), 1);
    match &ss[0] {
        ASTNode::IfStatement { condition, then_block, else_if_blocks, else_block, .. } => {
            assert!(matches!(condition.as_ref(), ASTNode::Identifier(n, _) if n == "a"));
            assert_eq!(then_block.len(), 1);
            assert_eq!(else_if_blocks.len(), 1);
            let (elif_cond, elif_block) = &else_if_blocks[0];
            assert!(matches!(elif_cond.as_ref(), ASTNode::Identifier(n, _) if n == "b"));
            assert_eq!(elif_block.len(), 1);
            let else_stmts = else_block.as_ref().expect("the else block is present");
            assert_eq!(else_stmts.len(), 1);
        }
        other => panic!("expected a conditional, got {:?}", other),
    }
}

#[test]
fn error_expected_identifier_in_declaration() {
    let err = parse_source("VARint 5; END").unwrap_err();
    assert_eq!(err.message, "Expected identifier.");
}

#[test]
fn error_expected_identifier_before_exp() {
    let err = parse_source("; END").unwrap_err();
    assert_eq!(err.message, "Expected identifier before exp.");
    assert_eq!(err.line, 1);
}

#[test]
fn error_expected_equals() {
    let err = parse_source("x 5; END").unwrap_err();
    assert_eq!(err.message, "Expected '='.");
}

#[test]
fn error_unexpected_token_in_factor() {
    let err = parse_source("x = ; END").unwrap_err();
    assert_eq!(err.message, "Unexpected token in factor");
}

#[test]
fn error_expected_closing_paren() {
    let err = parse_source("x = (1 + 2; END").unwrap_err();
    assert_eq!(err.message, "Expected ')' after expression.");
}

#[test]
fn error_expected_paren_after_if() {
    let err = parse_source("IF a THEN x = 1; END-IF END").unwrap_err();
    assert_eq!(err.message, "Expected '(' after IF");
}

#[test]
fn error_expected_rparen_of_if_header() {
    let err = parse_source("IF (a THEN x = 1; END-IF END").unwrap_err();
    assert_eq!(err.message, "Expected ) after expression");
}

#[test]
fn error_expected_then() {
    let err = parse_source("IF () a x = 1; END-IF END").unwrap_err();
    assert_eq!(err.message, "Expected 'THEN' after IF condition");
}

#[test]
fn error_expected_then_after_elif() {
    let err = parse_source("IF () a THEN x = 1; ELIF b x = 2; END-IF END").unwrap_err();
    assert_eq!(err.message, "Expected 'THEN' after ELSE-IF condition");
}

#[test]
fn error_expected_end_if() {
    let err = parse_source("IF () a THEN x = 1; ELSE y = 2; ELSE z = 3; END-IF END").unwrap_err();
    assert_eq!(err.message, "Expected 'END-IF' to close block");
}

#[test]
fn error_missing_display_identifier() {
    let err = parse_source("DISPLAY 5; END").unwrap_err();
    assert_eq!(err.message, "Expected identifier before display_statement.");
    let err = parse_source("DISPLAYnumeric 5; END").unwrap_err();
    assert_eq!(err.message, "Expected identifier before int.");
    let err = parse_source("DISPLAYstring 5; END").unwrap_err();
    assert_eq!(err.message, "Expected identifier before string.");
}

#[test]
fn error_missing_display_semicolon() {
    let err = parse_source("DISPLAY x END").unwrap_err();
    assert_eq!(err.message, "Expected ';' after display statement.");
}

#[test]
fn error_missing_expression_semicolon() {
    let err = parse_source("x = 1 END").unwrap_err();
    assert_eq!(err.message, "Expected ';' after expression statement.");
}

#[test]
fn empty_program_parses() {
    let ast = parse_source("END").unwrap();
    assert_eq!(statements(&ast).len(), 0);
}

#[test]
fn well_formed_program_parses_and_counts_leaves() {
    // Every identifier, number and string token either becomes a leaf of the
    // tree or names the identifier a statement binds, so leaves plus binding
    // statements equal the literal/identifier tokens of the source.
    let ast = parse_source("VARint x = 1 + y; DISPLAY x; z = 2; END").unwrap();
    let nodes = ast.traverse();
    let leaves = nodes
        .iter()
        .filter(|n| {
            matches!(
                n,
                ASTNode::Identifier(..) | ASTNode::Number(..) | ASTNode::StringLiteral(..)
            )
        })
        .count();
    let binders = nodes
        .iter()
        .filter(|n| {
            matches!(
                n,
                ASTNode::VariableDeclaration { .. }
                    | ASTNode::DisplayStatement(..)
                    | ASTNode::DisplayIntStatement(..)
                    | ASTNode::DisplayStringStatement(..)
                    | ASTNode::ExpressionStatement { .. }
            )
        })
        .count();
    // Source tokens of those kinds: x, 1, y, x, z, 2.
    assert_eq!(leaves + binders, 6);
    assert_eq!(leaves, 3);
}
